//! What a program does, read from its tokens, and the proof that the
//! machine runs the opcodes the parser emits for it to the same end.
//!
//! A program runs on the machine's stack: 32 entries that hold the
//! variables, and the values that statements leave above them. A `return`
//! ends the program with the value of its expression. An expression
//! statement leaves its value on the stack; an assignment `x = e;` stores
//! the value of `e` in the entry of `x`. An `if` or a `while` leaves the
//! value of its condition on the stack each time it tests it, and runs its
//! branch or its body where that value is not zero. A declaration only
//! names entries. When the body of `main` ends without a `return`, the
//! program returns the value on top of the stack.

use vstd::prelude::*;
use crate::lexer::TokenView;
use crate::parser::{
    cur, advance, emit, patch, moved, ParseState, p_expr, p_stmt, p_if, p_while, p_block_body,
    p_decl_names, p_expect, p_main_body, p_program, skip_declaration, initial_parse_state,
    parse_tokens, parser_capacity, variable_offset, SymbolView, SymbolClass, global_entry,
    enter_function, declare_global,
};
use crate::vm::{
    Opcode, VmState, Outcome, Step, vm_run, vm_step, in_code, more_steps_same_end, initial_vm_state,
    outcome_within, program_outcome, STEP_LIMIT,
};
use crate::evaluation::{
    value_expr, emitted, bottom_of, lemma_expr_computes, lemma_vm_runs_straight_line,
};

verus! {

/// How a statement ends: normally, with the stack it leaves, or by
/// returning a value.
pub enum Flow {
    Normal(Seq<i64>),
    Return(i64),
}

/// What the statement at `st` (the parser's state before it) does on the
/// stack `t`. A loop reached with `fuel` tests its condition at most `fuel`
/// times. `None` where that is not enough, or where the statement has no
/// meaning here: an expression without a value (a division by zero, an
/// overflow, an unknown variable, an assignment inside an expression), or a
/// store to an entry the stack does not have.
pub open spec fn run_stmt(toks: Seq<TokenView>, st: ParseState, t: Seq<i64>, fuel: nat) -> Option<
    Flow,
>
    decreases fuel, toks.len() - st.pos, 2nat,
{
    match cur(toks, st.pos) {
        TokenView::Return => match value_expr(toks, st, t, st.pos + 1) {
            Some((v, _)) => Some(Flow::Return(v)),
            None => None,
        },
        TokenView::If => run_if(toks, st, t, fuel),
        TokenView::While => run_while(toks, st, t, fuel),
        TokenView::LBrace => if 0 <= st.pos {
            run_block(toks, advance(st), t, fuel)
        } else {
            None
        },
        TokenView::Int => Some(Flow::Normal(t)),
        TokenView::Ident(x) => if cur(toks, st.pos + 1) == TokenView::Assign {
            match (value_expr(toks, st, t, st.pos + 2), variable_offset(st, x)) {
                (Some((v, _)), Some(o)) => if (o as usize) < t.len() {
                    Some(Flow::Normal(t.update((o as usize) as int, v)))
                } else {
                    None
                },
                _ => None,
            }
        } else {
            match value_expr(toks, st, t, st.pos) {
                Some((v, _)) => Some(Flow::Normal(t.push(v))),
                None => None,
            }
        },
        _ => match value_expr(toks, st, t, st.pos) {
            Some((v, _)) => Some(Flow::Normal(t.push(v))),
            None => None,
        },
    }
}

/// What `if (c) s1 [else s2]` at `st` does: it leaves the value of `c` on
/// the stack, then runs `s1` where it is not zero, else `s2` if there is one.
pub open spec fn run_if(toks: Seq<TokenView>, st: ParseState, t: Seq<i64>, fuel: nat) -> Option<
    Flow,
>
    decreases fuel, toks.len() - st.pos, 1nat,
{
    let s1 = advance(advance(st));
    match (value_expr(toks, st, t, s1.pos), p_expr(toks, s1)) {
        (Some((vc, _)), Ok(s2)) => {
            let t1 = t.push(vc);
            let s4 = emit(advance(s2), Opcode::Jz(0));
            if !moved(toks, st, s4) {
                None
            } else if vc != 0 {
                run_stmt(toks, s4, t1, fuel)
            } else {
                match p_stmt(toks, s4) {
                    Ok(s5) => if cur(toks, s5.pos) == TokenView::Else {
                        let s7 = emit(advance(s5), Opcode::Jmp(0));
                        let s8 = patch(s7, s2.code.len() as int, Opcode::Jz(s7.code.len() as i64));
                        if moved(toks, st, s8) {
                            run_stmt(toks, s8, t1, fuel)
                        } else {
                            None
                        }
                    } else {
                        Some(Flow::Normal(t1))
                    },
                    Err(_) => None,
                }
            }
        },
        _ => None,
    }
}

/// What `while (c) s` at `st` does: it leaves the value of `c` on the
/// stack, and where it is not zero runs `s` and starts again.
pub open spec fn run_while(toks: Seq<TokenView>, st: ParseState, t: Seq<i64>, fuel: nat) -> Option<
    Flow,
>
    decreases fuel, toks.len() - st.pos, 1nat,
{
    if fuel == 0 {
        None
    } else {
        let s1 = advance(advance(st));
        match (value_expr(toks, st, t, s1.pos), p_expr(toks, s1)) {
            (Some((vc, _)), Ok(s2)) => {
                let t1 = t.push(vc);
                let s4 = emit(advance(s2), Opcode::Jz(0));
                if vc == 0 {
                    Some(Flow::Normal(t1))
                } else if !moved(toks, st, s4) {
                    None
                } else {
                    match run_stmt(toks, s4, t1, fuel) {
                        Some(Flow::Normal(t2)) => run_while(toks, st, t2, (fuel - 1) as nat),
                        r => r,
                    }
                }
            },
            _ => None,
        }
    }
}

/// What the statements from `st` up to a `}` do.
pub open spec fn run_block(toks: Seq<TokenView>, st: ParseState, t: Seq<i64>, fuel: nat) -> Option<
    Flow,
>
    decreases fuel, toks.len() - st.pos, 3nat,
{
    if cur(toks, st.pos) == TokenView::RBrace {
        Some(Flow::Normal(t))
    } else {
        match (run_stmt(toks, st, t, fuel), p_stmt(toks, st)) {
            (Some(Flow::Normal(t1)), Ok(s1)) => if moved(toks, st, s1) {
                run_block(toks, s1, t1, fuel)
            } else {
                None
            },
            (r, _) => r,
        }
    }
}

// ---------------------------------------------------------------------------
// Parsing a statement appends opcodes after the code it starts with, at
// most one per token, and changes only its own opcodes.
// ---------------------------------------------------------------------------

/// From `a` to `b` the code before `a`'s end stayed, and the code grew by at
/// most one opcode per token consumed.
pub open spec fn keeps_prefix(a: ParseState, b: ParseState) -> bool {
    &&& a.code.len() <= b.code.len()
    &&& b.code.subrange(0, a.code.len() as int) == a.code
    &&& b.code.len() - a.code.len() <= b.pos - a.pos
}

proof fn lemma_keeps_chain(a: ParseState, b: ParseState, c: ParseState)
    requires
        keeps_prefix(a, b),
        keeps_prefix(b, c),
    ensures
        keeps_prefix(a, c),
{
    assert(c.code.subrange(0, a.code.len() as int) =~= b.code.subrange(0, a.code.len() as int));
}

proof fn lemma_expr_keeps(toks: Seq<TokenView>, st: ParseState)
    requires
        0 <= st.pos <= toks.len(),
    ensures
        p_expr(toks, st) matches Ok(s) ==> keeps_prefix(st, s) && s.pos <= toks.len()
            && s.globals == st.globals && s.locals == st.locals && s.local_offset == st.local_offset
            && s.global_count == st.global_count,
{
    crate::loops::lemma_expr_frame(toks, st, st.code);
    crate::parser::successful_parses_consume_tokens(toks, st);
}

proof fn lemma_decl_keeps(toks: Seq<TokenView>, st: ParseState)
    requires
        0 <= st.pos <= toks.len(),
    ensures
        p_decl_names(toks, st) matches Ok(s) ==> s.code == st.code && st.pos < s.pos <= toks.len(),
    decreases toks.len() - st.pos,
{
    if let TokenView::Ident(name) = cur(toks, st.pos) {
        let offset = (st.local_offset + 1) as i64;
        let s1 = ParseState {
            pos: st.pos + 1,
            locals: st.locals.insert(name, SymbolView { name, class: SymbolClass::Local, offset }),
            local_offset: offset,
            ..st
        };
        if cur(toks, s1.pos) == TokenView::Comma {
            lemma_decl_keeps(toks, advance(s1));
        }
    }
}

proof fn lemma_if_keeps(toks: Seq<TokenView>, st: ParseState)
    requires
        0 <= st.pos <= toks.len(),
    ensures
        p_if(toks, st) matches Ok(s) ==> keeps_prefix(st, s) && s.pos <= toks.len(),
    decreases toks.len() - st.pos, 9nat,
{
    if let Ok(s1) = p_expect(toks, advance(st), TokenView::LParen) {
        lemma_expr_keeps(toks, s1);
        if let Ok(s2) = p_expr(toks, s1) {
            if let Ok(s3) = p_expect(toks, s2, TokenView::RParen) {
                let jz = s3.code.len() as int;
                let s4 = emit(s3, Opcode::Jz(0));
                assert(s4.code.subrange(0, st.code.len() as int) =~= s2.code.subrange(
                    0,
                    st.code.len() as int,
                ));
                if moved(toks, st, s4) {
                    lemma_stmt_keeps(toks, s4);
                    if let Ok(s5) = p_stmt(toks, s4) {
                        lemma_keeps_chain(st, s4, s5);
                        if cur(toks, s5.pos) == TokenView::Else {
                            let s6 = advance(s5);
                            let jmp = s6.code.len() as int;
                            let s7 = emit(s6, Opcode::Jmp(0));
                            let s8 = patch(s7, jz, Opcode::Jz(s7.code.len() as i64));
                            assert(s8.code.subrange(0, st.code.len() as int) =~= s5.code.subrange(
                                0,
                                st.code.len() as int,
                            ));
                            if moved(toks, st, s8) {
                                lemma_stmt_keeps(toks, s8);
                                if let Ok(s9) = p_stmt(toks, s8) {
                                    lemma_keeps_chain(st, s8, s9);
                                    let s10 = patch(s9, jmp, Opcode::Jmp(s9.code.len() as i64));
                                    assert(s10.code.subrange(0, st.code.len() as int)
                                        =~= s9.code.subrange(0, st.code.len() as int));
                                }
                            }
                        } else {
                            let s6 = patch(s5, jz, Opcode::Jz(s5.code.len() as i64));
                            assert(s6.code.subrange(0, st.code.len() as int) =~= s5.code.subrange(
                                0,
                                st.code.len() as int,
                            ));
                        }
                    }
                }
            }
        }
    }
}

proof fn lemma_while_keeps(toks: Seq<TokenView>, st: ParseState)
    requires
        0 <= st.pos <= toks.len(),
    ensures
        p_while(toks, st) matches Ok(s) ==> keeps_prefix(st, s) && s.pos <= toks.len(),
    decreases toks.len() - st.pos, 9nat,
{
    if let Ok(s1) = p_expect(toks, advance(st), TokenView::LParen) {
        lemma_expr_keeps(toks, s1);
        if let Ok(s2) = p_expr(toks, s1) {
            if let Ok(s3) = p_expect(toks, s2, TokenView::RParen) {
                let jz = s3.code.len() as int;
                let s4 = emit(s3, Opcode::Jz(0));
                assert(s4.code.subrange(0, st.code.len() as int) =~= s2.code.subrange(
                    0,
                    st.code.len() as int,
                ));
                if moved(toks, st, s4) {
                    lemma_stmt_keeps(toks, s4);
                    if let Ok(s5) = p_stmt(toks, s4) {
                        lemma_keeps_chain(st, s4, s5);
                        let s6 = emit(s5, Opcode::Jmp(st.code.len() as i64));
                        let s7 = patch(s6, jz, Opcode::Jz(s6.code.len() as i64));
                        assert(s7.code.subrange(0, st.code.len() as int) =~= s5.code.subrange(
                            0,
                            st.code.len() as int,
                        ));
                    }
                }
            }
        }
    }
}

proof fn lemma_block_keeps(toks: Seq<TokenView>, st: ParseState)
    requires
        0 <= st.pos <= toks.len(),
    ensures
        p_block_body(toks, st) matches Ok(s) ==> keeps_prefix(st, s) && s.pos <= toks.len(),
    decreases toks.len() - st.pos, 11nat,
{
    if cur(toks, st.pos) != TokenView::RBrace {
        lemma_stmt_keeps(toks, st);
        if let Ok(s1) = p_stmt(toks, st) {
            if moved(toks, st, s1) {
                lemma_block_keeps(toks, s1);
                if let Ok(s2) = p_block_body(toks, s1) {
                    lemma_keeps_chain(st, s1, s2);
                }
            }
        }
    } else {
        assert(st.code.subrange(0, st.code.len() as int) =~= st.code);
    }
}

proof fn lemma_stmt_keeps(toks: Seq<TokenView>, st: ParseState)
    requires
        0 <= st.pos <= toks.len(),
    ensures
        p_stmt(toks, st) matches Ok(s) ==> keeps_prefix(st, s) && s.pos <= toks.len(),
    decreases toks.len() - st.pos, 10nat,
{
    match cur(toks, st.pos) {
        TokenView::Return => {
            lemma_expr_keeps(toks, advance(st));
            if let Ok(s1) = p_expr(toks, advance(st)) {
                if let Ok(s2) = p_expect(toks, s1, TokenView::Semicolon) {
                    let s3 = emit(s2, Opcode::Ret);
                    assert(s3.code.subrange(0, st.code.len() as int) =~= s1.code.subrange(
                        0,
                        st.code.len() as int,
                    ));
                }
            }
        },
        TokenView::If => lemma_if_keeps(toks, st),
        TokenView::While => lemma_while_keeps(toks, st),
        TokenView::LBrace => {
            lemma_block_keeps(toks, advance(st));
        },
        TokenView::Int => {
            lemma_decl_keeps(toks, advance(st));
            assert(st.code.subrange(0, st.code.len() as int) =~= st.code);
        },
        _ => {
            lemma_expr_keeps(toks, st);
        },
    }
}

// ---------------------------------------------------------------------------
// The machine runs the code of a statement as `run_stmt` says.
// ---------------------------------------------------------------------------

/// `code` holds, from `a`'s end to `b`'s end, the opcodes `b` has there, and
/// the machine can address all of it.
pub open spec fn holds_code(code: Seq<Opcode>, a: ParseState, b: ParseState) -> bool {
    &&& a.code.len() <= b.code.len() <= code.len()
    &&& code.len() < i64::MAX
    &&& code.len() <= usize::MAX
    &&& code.subrange(a.code.len() as int, b.code.len() as int) == b.code.subrange(
        a.code.len() as int,
        b.code.len() as int,
    )
}

/// Run for `n + rest` steps from `start` with stack `t`, the machine is
/// where `flow` says: run for `rest` more steps from `end` with the stack a
/// normal end leaves, or finished with the value returned.
pub open spec fn runs_to(
    code: Seq<Opcode>,
    start: int,
    t: Seq<i64>,
    end: int,
    flow: Flow,
    n: nat,
    rest: nat,
) -> bool {
    match flow {
        Flow::Normal(t1) => vm_run(code, VmState { stack: t, pc: start as i64 }, n + rest) == vm_run(
            code,
            VmState { stack: t1, pc: end as i64 },
            rest,
        ),
        Flow::Return(v) => vm_run(code, VmState { stack: t, pc: start as i64 }, n + rest)
            == Outcome::Finished(Ok(v)),
    }
}

proof fn lemma_holds_within(code: Seq<Opcode>, a: ParseState, b: ParseState, x: ParseState, y: ParseState)
    requires
        holds_code(code, a, b),
        a.code.len() <= x.code.len() <= y.code.len() <= b.code.len(),
        b.code.subrange(x.code.len() as int, y.code.len() as int) == y.code.subrange(
            x.code.len() as int,
            y.code.len() as int,
        ),
    ensures
        holds_code(code, x, y),
{
    let a0 = a.code.len() as int;
    let x0 = x.code.len() as int;
    let y0 = y.code.len() as int;
    assert(code.subrange(x0, y0) =~= code.subrange(a0, b.code.len() as int).subrange(x0 - a0, y0 - a0));
    assert(b.code.subrange(x0, y0) =~= b.code.subrange(a0, b.code.len() as int).subrange(
        x0 - a0,
        y0 - a0,
    ));
}

/// Where a statement returns, the machine finishes with the value, whatever
/// more steps it is given.
proof fn lemma_return_stays(code: Seq<Opcode>, st: VmState, n: nat, rest: nat, v: i64)
    requires
        vm_run(code, st, n) == Outcome::Finished(Ok::<i64, Seq<char>>(v)),
    ensures
        vm_run(code, st, n + rest) == Outcome::Finished(Ok::<i64, Seq<char>>(v)),
{
    more_steps_same_end(code, st, n, n + rest);
}

/// The opcodes of an expression at `q` (in the tables of `env`) at index
/// `q.code.len()` of `code` push its value.
proof fn lemma_expr_code_runs(
    toks: Seq<TokenView>,
    env: ParseState,
    q: ParseState,
    t: Seq<i64>,
    code: Seq<Opcode>,
    rest: nat,
)
    requires
        q.globals == env.globals,
        q.locals == env.locals,
        value_expr(toks, env, t, q.pos) is Some,
        p_expr(toks, q) is Ok ==> (
            q.code.len() + emitted(q, p_expr(toks, q)->Ok_0).len() <= code.len()
            && code.subrange(
                q.code.len() as int,
                q.code.len() + emitted(q, p_expr(toks, q)->Ok_0).len() as int,
            ) == emitted(q, p_expr(toks, q)->Ok_0)),
        code.len() < i64::MAX,
        code.len() <= usize::MAX,
    ensures
        p_expr(toks, q) matches Ok(s) && s.pos == (value_expr(toks, env, t, q.pos)->0).1
            && s.code == q.code + emitted(q, s) && s.globals == q.globals && s.locals == q.locals
            && s.local_offset == q.local_offset && emitted(q, s).len() <= s.pos - q.pos
            && vm_run(code, VmState { stack: t, pc: q.code.len() as i64 }, emitted(q, s).len() + rest)
            == vm_run(
            code,
            VmState {
                stack: t.push((value_expr(toks, env, t, q.pos)->0).0),
                pc: (q.code.len() + emitted(q, s).len()) as i64,
            },
            rest,
        ),
{
    assert(bottom_of(t, t)) by {
        assert(t.subrange(0, t.len() as int) =~= t);
    }
    lemma_expr_computes(toks, env, t, q, t);
    let s = p_expr(toks, q)->Ok_0;
    assert(s.code =~= q.code + emitted(q, s));
    crate::loops::lemma_expr_frame(toks, q, q.code);
    lemma_vm_runs_straight_line(code, q.code.len() as int, emitted(q, s), t, rest);
}

#[verifier::spinoff_prover]
#[verifier::rlimit(50)]
proof fn lemma_stmt_runs(
    toks: Seq<TokenView>,
    st: ParseState,
    t: Seq<i64>,
    fuel: nat,
    code: Seq<Opcode>,
    rest: nat,
) -> (n: nat)
    requires
        0 <= st.pos <= toks.len(),
        p_stmt(toks, st) is Ok,
        holds_code(code, st, p_stmt(toks, st)->Ok_0),
        run_stmt(toks, st, t, fuel) is Some,
    ensures
        runs_to(
            code,
            st.code.len() as int,
            t,
            (p_stmt(toks, st)->Ok_0).code.len() as int,
            run_stmt(toks, st, t, fuel)->0,
            n,
            rest,
        ),
    decreases fuel, toks.len() - st.pos, 2nat,
{
    let s = p_stmt(toks, st)->Ok_0;
    let a0 = st.code.len() as int;
    lemma_stmt_keeps(toks, st);
    match cur(toks, st.pos) {
        TokenView::Return => {
            let q = advance(st);
            let v = (value_expr(toks, st, t, st.pos + 1)->0).0;
            let s1 = p_expr(toks, q)->Ok_0;
            let ops = emitted(q, s1);
            lemma_expr_keeps(toks, q);
            assert(s.code =~= st.code + ops + seq![Opcode::Ret]);
            assert(code.subrange(a0, a0 + ops.len()) =~= ops) by {
                assert(code.subrange(a0, a0 + ops.len()) =~= code.subrange(a0, s.code.len() as int).subrange(
                    0,
                    ops.len() as int,
                ));
            }
            assert(code[a0 + ops.len()] == Opcode::Ret) by {
                assert(code.subrange(a0, s.code.len() as int)[ops.len() as int] == code[a0 + ops.len()]);
            }
            lemma_expr_code_runs(toks, st, q, t, code, 1);
            assert(vm_run(code, VmState { stack: t.push(v), pc: (a0 + ops.len()) as i64 }, 1)
                == Outcome::Finished(Ok::<i64, Seq<char>>(v)));
            lemma_return_stays(code, VmState { stack: t, pc: a0 as i64 }, ops.len() + 1, rest, v);
            ops.len() + 1
        },
        TokenView::If => lemma_if_runs(toks, st, t, fuel, code, rest),
        TokenView::While => lemma_while_stmt_runs(toks, st, t, fuel, code, rest),
        TokenView::LBrace => {
            let q = advance(st);
            lemma_block_keeps(toks, q);
            let s1 = p_block_body(toks, q)->Ok_0;
            assert(s.code == s1.code);
            lemma_block_runs(toks, q, t, fuel, code, rest)
        },
        TokenView::Int => {
            lemma_decl_keeps(toks, advance(st));
            0
        },
        TokenView::Ident(x) => {
            if cur(toks, st.pos + 1) == TokenView::Assign {
                let q = ParseState { pos: st.pos + 2, ..st };
                let v = (value_expr(toks, st, t, st.pos + 2)->0).0;
                let o = variable_offset(st, x)->0;
                let s1 = p_expr(toks, q)->Ok_0;
                let ops = emitted(q, s1);
                lemma_expr_keeps(toks, q);
                assert(crate::parser::p_assignment(toks, q) == p_expr(toks, q));
                assert(s.code =~= st.code + ops + seq![Opcode::St(o)]);
                assert(code.subrange(a0, a0 + ops.len()) =~= ops) by {
                    assert(code.subrange(a0, a0 + ops.len()) =~= code.subrange(a0, s.code.len() as int).subrange(
                        0,
                        ops.len() as int,
                    ));
                }
                assert(code[a0 + ops.len()] == Opcode::St(o)) by {
                    assert(code.subrange(a0, s.code.len() as int)[ops.len() as int] == code[a0 + ops.len()]);
                }
                lemma_expr_code_runs(toks, st, q, t, code, 1 + rest);
                let tv = t.push(v);
                assert(tv.drop_last() =~= t);
                assert(vm_run(code, VmState { stack: tv, pc: (a0 + ops.len()) as i64 }, 1 + rest)
                    == vm_run(
                    code,
                    VmState { stack: t.update((o as usize) as int, v), pc: (a0 + ops.len() + 1) as i64 },
                    rest,
                ));
                ops.len() + 1
            } else {
                let v = (value_expr(toks, st, t, st.pos)->0).0;
                let s1 = p_expr(toks, st)->Ok_0;
                let ops = emitted(st, s1);
                lemma_expr_keeps(toks, st);
                assert(s.code =~= st.code + ops);
                assert(code.subrange(a0, a0 + ops.len()) =~= ops);
                lemma_expr_code_runs(toks, st, st, t, code, rest);
                ops.len()
            }
        },
        _ => {
            let v = (value_expr(toks, st, t, st.pos)->0).0;
            let s1 = p_expr(toks, st)->Ok_0;
            let ops = emitted(st, s1);
            lemma_expr_keeps(toks, st);
            assert(s.code =~= st.code + ops);
            assert(code.subrange(a0, a0 + ops.len()) =~= ops);
            lemma_expr_code_runs(toks, st, st, t, code, rest);
            ops.len()
        },
    }
}

proof fn lemma_code_at(code: Seq<Opcode>, a: ParseState, b: ParseState, i: int)
    requires
        holds_code(code, a, b),
        a.code.len() <= i < b.code.len(),
    ensures
        code[i] == b.code[i],
{
    let a0 = a.code.len() as int;
    assert(code.subrange(a0, b.code.len() as int)[i - a0] == code[i]);
    assert(b.code.subrange(a0, b.code.len() as int)[i - a0] == b.code[i]);
}

proof fn lemma_code_range(code: Seq<Opcode>, a: ParseState, b: ParseState, i: int, j: int, ops: Seq<Opcode>)
    requires
        holds_code(code, a, b),
        a.code.len() <= i <= j <= b.code.len(),
        b.code.subrange(i, j) == ops,
    ensures
        code.subrange(i, j) == ops,
{
    let a0 = a.code.len() as int;
    assert(code.subrange(i, j) =~= code.subrange(a0, b.code.len() as int).subrange(i - a0, j - a0));
    assert(b.code.subrange(i, j) =~= b.code.subrange(a0, b.code.len() as int).subrange(i - a0, j - a0));
}

#[verifier::spinoff_prover]
#[verifier::rlimit(50)]
proof fn lemma_if_runs(
    toks: Seq<TokenView>,
    st: ParseState,
    t: Seq<i64>,
    fuel: nat,
    code: Seq<Opcode>,
    rest: nat,
) -> (n: nat)
    requires
        0 <= st.pos <= toks.len(),
        cur(toks, st.pos) == TokenView::If,
        p_if(toks, st) is Ok,
        holds_code(code, st, p_if(toks, st)->Ok_0),
        run_if(toks, st, t, fuel) is Some,
    ensures
        runs_to(
            code,
            st.code.len() as int,
            t,
            (p_if(toks, st)->Ok_0).code.len() as int,
            run_if(toks, st, t, fuel)->0,
            n,
            rest,
        ),
    decreases fuel, toks.len() - st.pos, 1nat,
{
    let s = p_if(toks, st)->Ok_0;
    let a0 = st.code.len() as int;
    let s1 = advance(advance(st));
    let vc = (value_expr(toks, st, t, s1.pos)->0).0;
    lemma_expr_keeps(toks, s1);
    let s2 = p_expr(toks, s1)->Ok_0;
    let ops_c = emitted(s1, s2);
    let s3 = advance(s2);
    let jz = s3.code.len() as int;
    let s4 = emit(s3, Opcode::Jz(0));
    let t1 = t.push(vc);
    lemma_stmt_keeps(toks, s4);
    let s5 = p_stmt(toks, s4)->Ok_0;
    let has_else = cur(toks, s5.pos) == TokenView::Else;
    // The condition's code and the jump after it.
    assert(s4.code.subrange(0, s2.code.len() as int) =~= s2.code);
    assert(s2.code.subrange(a0, jz) =~= ops_c);
    let extra: nat = if has_else {
        1
    } else {
        0
    };
    let target: int;
    if has_else {
        let s6 = advance(s5);
        let s7 = emit(s6, Opcode::Jmp(0));
        let s8 = patch(s7, jz, Opcode::Jz(s7.code.len() as i64));
        lemma_stmt_keeps(toks, s8);
        let s9 = p_stmt(toks, s8)->Ok_0;
        assert(s == patch(s9, s5.code.len() as int, Opcode::Jmp(s9.code.len() as i64)));
        assert(s.code.subrange(0, s5.code.len() as int) =~= s8.code.subrange(0, s5.code.len() as int));
        assert(s8.code.subrange(0, jz) =~= s5.code.subrange(0, jz));
        assert(s5.code.subrange(0, jz) =~= s2.code.subrange(0, jz));
        assert(s.code.subrange(a0, jz) =~= ops_c) by {
            assert(s.code.subrange(a0, jz) =~= s.code.subrange(0, s5.code.len() as int).subrange(a0, jz));
            assert(s2.code.subrange(a0, jz) =~= s2.code.subrange(0, jz).subrange(a0, jz));
        }
        assert(s.code[jz] == Opcode::Jz(s7.code.len() as i64)) by {
            assert(s.code.subrange(0, s5.code.len() as int)[jz] == s.code[jz]);
            assert(s8.code.subrange(0, s5.code.len() as int)[jz] == s8.code[jz]);
        }
        assert(s.code.subrange(s4.code.len() as int, s5.code.len() as int) =~= s5.code.subrange(
            s4.code.len() as int,
            s5.code.len() as int,
        )) by {
            assert(s.code.subrange(s4.code.len() as int, s5.code.len() as int) =~= s.code.subrange(
                0,
                s5.code.len() as int,
            ).subrange(s4.code.len() as int, s5.code.len() as int));
            assert(s8.code.subrange(s4.code.len() as int, s5.code.len() as int) =~= s8.code.subrange(
                0,
                s5.code.len() as int,
            ).subrange(s4.code.len() as int, s5.code.len() as int));
        }
        assert(s.code.subrange(s8.code.len() as int, s9.code.len() as int) =~= s9.code.subrange(
            s8.code.len() as int,
            s9.code.len() as int,
        ));
        target = s7.code.len() as int;
        lemma_code_at(code, st, s, s5.code.len() as int);
        if vc == 0 {
            lemma_holds_within(code, st, s, s8, s9);
        }
    } else {
        assert(s == patch(s5, jz, Opcode::Jz(s5.code.len() as i64)));
        assert(s.code.subrange(a0, jz) =~= ops_c) by {
            assert(s5.code.subrange(a0, jz) =~= s5.code.subrange(0, s4.code.len() as int).subrange(a0, jz));
        }
        assert(s.code.subrange(s4.code.len() as int, s5.code.len() as int) =~= s5.code.subrange(
            s4.code.len() as int,
            s5.code.len() as int,
        ));
        target = s5.code.len() as int;
    }
    lemma_code_range(code, st, s, a0, jz, ops_c);
    lemma_code_at(code, st, s, jz);
    if vc != 0 {
        lemma_holds_within(code, st, s, s4, s5);
        let n_b = lemma_stmt_runs(toks, s4, t1, fuel, code, extra + rest);
        lemma_expr_code_runs(toks, st, s1, t, code, 1 + n_b + extra + rest);
        assert(vm_run(code, VmState { stack: t1, pc: jz as i64 }, 1 + n_b + extra + rest) == vm_run(
            code,
            VmState { stack: t1, pc: (jz + 1) as i64 },
            n_b + extra + rest,
        ));
        if has_else {
            if let Some(Flow::Normal(t2)) = run_stmt(toks, s4, t1, fuel) {
                assert(vm_run(code, VmState { stack: t2, pc: s5.code.len() as i64 }, 1 + rest) == vm_run(
                    code,
                    VmState { stack: t2, pc: s.code.len() as i64 },
                    rest,
                ));
            }
        }
        (ops_c.len() + 1 + n_b + extra) as nat
    } else {
        if has_else {
            let s6 = advance(s5);
            let s7 = emit(s6, Opcode::Jmp(0));
            let s8 = patch(s7, jz, Opcode::Jz(s7.code.len() as i64));
            let n_e = lemma_stmt_runs(toks, s8, t1, fuel, code, rest);
            lemma_expr_code_runs(toks, st, s1, t, code, 1 + n_e + rest);
            assert(vm_run(code, VmState { stack: t1, pc: jz as i64 }, 1 + n_e + rest) == vm_run(
                code,
                VmState { stack: t1, pc: target as i64 },
                n_e + rest,
            ));
            (ops_c.len() + 1 + n_e) as nat
        } else {
            lemma_expr_code_runs(toks, st, s1, t, code, 1 + rest);
            assert(vm_run(code, VmState { stack: t1, pc: jz as i64 }, 1 + rest) == vm_run(
                code,
                VmState { stack: t1, pc: target as i64 },
                rest,
            ));
            (ops_c.len() + 1) as nat
        }
    }
}

#[verifier::spinoff_prover]
#[verifier::rlimit(50)]
proof fn lemma_while_stmt_runs(
    toks: Seq<TokenView>,
    st: ParseState,
    t: Seq<i64>,
    fuel: nat,
    code: Seq<Opcode>,
    rest: nat,
) -> (n: nat)
    requires
        0 <= st.pos <= toks.len(),
        cur(toks, st.pos) == TokenView::While,
        p_while(toks, st) is Ok,
        holds_code(code, st, p_while(toks, st)->Ok_0),
        run_while(toks, st, t, fuel) is Some,
    ensures
        runs_to(
            code,
            st.code.len() as int,
            t,
            (p_while(toks, st)->Ok_0).code.len() as int,
            run_while(toks, st, t, fuel)->0,
            n,
            rest,
        ),
    decreases fuel, toks.len() - st.pos, 1nat,
{
    let s = p_while(toks, st)->Ok_0;
    let a0 = st.code.len() as int;
    let s1 = advance(advance(st));
    let vc = (value_expr(toks, st, t, s1.pos)->0).0;
    lemma_expr_keeps(toks, s1);
    let s2 = p_expr(toks, s1)->Ok_0;
    let ops_c = emitted(s1, s2);
    let s3 = advance(s2);
    let jz = s3.code.len() as int;
    let s4 = emit(s3, Opcode::Jz(0));
    let t1 = t.push(vc);
    lemma_stmt_keeps(toks, s4);
    let s5 = p_stmt(toks, s4)->Ok_0;
    let s6 = emit(s5, Opcode::Jmp(a0 as i64));
    assert(s == patch(s6, jz, Opcode::Jz(s6.code.len() as i64)));
    assert(s4.code.subrange(0, s2.code.len() as int) =~= s2.code);
    assert(s2.code.subrange(a0, jz) =~= ops_c);
    assert(s.code.subrange(a0, jz) =~= ops_c) by {
        assert(s5.code.subrange(a0, jz) =~= s5.code.subrange(0, s4.code.len() as int).subrange(a0, jz));
    }
    assert(s.code.subrange(s4.code.len() as int, s5.code.len() as int) =~= s5.code.subrange(
        s4.code.len() as int,
        s5.code.len() as int,
    ));
    lemma_code_range(code, st, s, a0, jz, ops_c);
    lemma_code_at(code, st, s, jz);
    lemma_code_at(code, st, s, s5.code.len() as int);
    if vc == 0 {
        lemma_expr_code_runs(toks, st, s1, t, code, 1 + rest);
        assert(vm_run(code, VmState { stack: t1, pc: jz as i64 }, 1 + rest) == vm_run(
            code,
            VmState { stack: t1, pc: s.code.len() as i64 },
            rest,
        ));
        (ops_c.len() + 1) as nat
    } else {
        lemma_holds_within(code, st, s, s4, s5);
        match run_stmt(toks, s4, t1, fuel)->0 {
            Flow::Return(v) => {
                let n_b = lemma_stmt_runs(toks, s4, t1, fuel, code, rest);
                lemma_expr_code_runs(toks, st, s1, t, code, 1 + n_b + rest);
                assert(vm_run(code, VmState { stack: t1, pc: jz as i64 }, 1 + n_b + rest) == vm_run(
                    code,
                    VmState { stack: t1, pc: (jz + 1) as i64 },
                    n_b + rest,
                ));
                (ops_c.len() + 1 + n_b) as nat
            },
            Flow::Normal(t2) => {
                let n_w = lemma_while_stmt_runs(toks, st, t2, (fuel - 1) as nat, code, rest);
                let n_b = lemma_stmt_runs(toks, s4, t1, fuel, code, 1 + n_w + rest);
                lemma_expr_code_runs(toks, st, s1, t, code, 1 + n_b + 1 + n_w + rest);
                assert(vm_run(code, VmState { stack: t1, pc: jz as i64 }, 1 + n_b + 1 + n_w + rest)
                    == vm_run(
                    code,
                    VmState { stack: t1, pc: (jz + 1) as i64 },
                    n_b + 1 + n_w + rest,
                ));
                assert(vm_run(code, VmState { stack: t2, pc: s5.code.len() as i64 }, 1 + n_w + rest)
                    == vm_run(code, VmState { stack: t2, pc: a0 as i64 }, n_w + rest));
                (ops_c.len() + 1 + n_b + 1 + n_w) as nat
            },
        }
    }
}

proof fn lemma_block_runs(
    toks: Seq<TokenView>,
    st: ParseState,
    t: Seq<i64>,
    fuel: nat,
    code: Seq<Opcode>,
    rest: nat,
) -> (n: nat)
    requires
        0 <= st.pos <= toks.len(),
        p_block_body(toks, st) is Ok,
        holds_code(code, st, p_block_body(toks, st)->Ok_0),
        run_block(toks, st, t, fuel) is Some,
    ensures
        runs_to(
            code,
            st.code.len() as int,
            t,
            (p_block_body(toks, st)->Ok_0).code.len() as int,
            run_block(toks, st, t, fuel)->0,
            n,
            rest,
        ),
    decreases fuel, toks.len() - st.pos, 3nat,
{
    if cur(toks, st.pos) == TokenView::RBrace {
        0
    } else {
        let s_end = p_block_body(toks, st)->Ok_0;
        lemma_stmt_keeps(toks, st);
        let s1 = p_stmt(toks, st)->Ok_0;
        if moved(toks, st, s1) {
            lemma_block_keeps(toks, s1);
            assert(s_end.code.subrange(st.code.len() as int, s1.code.len() as int) =~= s1.code.subrange(
                st.code.len() as int,
                s1.code.len() as int,
            )) by {
                assert(s_end.code.subrange(st.code.len() as int, s1.code.len() as int)
                    =~= s_end.code.subrange(0, s1.code.len() as int).subrange(
                    st.code.len() as int,
                    s1.code.len() as int,
                ));
                assert(s1.code.subrange(st.code.len() as int, s1.code.len() as int)
                    =~= s1.code.subrange(0, s1.code.len() as int).subrange(
                    st.code.len() as int,
                    s1.code.len() as int,
                ));
            }
        }
        lemma_holds_within(code, st, s_end, st, s1);
        match run_stmt(toks, st, t, fuel)->0 {
            Flow::Return(v) => lemma_stmt_runs(toks, st, t, fuel, code, rest),
            Flow::Normal(t1) => {
                lemma_holds_within(code, st, s_end, s1, s_end);
                let n2 = lemma_block_runs(toks, s1, t1, fuel, code, rest);
                let n1 = lemma_stmt_runs(toks, st, t, fuel, code, n2 + rest);
                n1 + n2
            },
        }
    }
}

// ---------------------------------------------------------------------------
// A whole program.
// ---------------------------------------------------------------------------

/// The state after the `{` of the first function, past the global
/// declarations before it; `None` where the program has none, or where the
/// first is not `main`.
pub open spec fn first_main(toks: Seq<TokenView>, st: ParseState) -> Option<ParseState>
    decreases toks.len() - st.pos,
{
    if cur(toks, st.pos) != TokenView::Int {
        None
    } else {
        let s0 = advance(st);
        match cur(toks, s0.pos) {
            TokenView::Ident(name) => {
                let s1 = advance(s0);
                if cur(toks, s1.pos) == TokenView::LParen {
                    if name == "main"@ && cur(toks, s1.pos + 1) == TokenView::RParen && cur(
                        toks,
                        s1.pos + 2,
                    ) == TokenView::LBrace {
                        Some(advance(advance(advance(s1))))
                    } else {
                        None
                    }
                } else {
                    let s2 = crate::parser::declare_global(s1, name);
                    let s3 = ParseState { pos: skip_declaration(toks, s2.pos), ..s2 };
                    if cur(toks, s3.pos) == TokenView::Semicolon && moved(toks, st, advance(s3)) {
                        first_main(toks, advance(s3))
                    } else {
                        None
                    }
                }
            },
            _ => None,
        }
    }
}

/// The number of zeros the declarations of `count` globals push: one for
/// each global after the first.
pub open spec fn global_pushes(count: i64) -> nat {
    if count > 1 {
        (count - 1) as nat
    } else {
        0
    }
}

/// `n` opcodes `Imm(0)`.
pub open spec fn zero_pushes(n: nat) -> Seq<Opcode> {
    Seq::new(n, |i: int| Opcode::Imm(0))
}

/// What a program returns: the body of its first function, `main`, runs
/// (as `run_block`, with `fuel`) on the 32 zero entries of the machine and
/// one zero entry for each global declared before it after the first; a
/// `return` gives the value, and where the body ends without one, the value
/// on top of the stack. `None` where the body has no meaning by
/// `run_block`, or the first function is not `main`.
pub open spec fn program_result(toks: Seq<TokenView>, fuel: nat) -> Option<i64> {
    match first_main(toks, initial_parse_state()) {
        Some(s4) => {
            let s5 = crate::parser::enter_function(s4);
            let t0 = initial_vm_state().stack + Seq::new(
                global_pushes(s4.global_count),
                |i: int| 0i64,
            );
            match run_block(toks, s5, t0, fuel) {
                Some(Flow::Return(v)) => Some(v),
                Some(Flow::Normal(t)) => if t.len() > 0 {
                    Some(t.last())
                } else {
                    None
                },
                None => None,
            }
        },
        None => None,
    }
}

proof fn lemma_main_body_keeps(toks: Seq<TokenView>, st: ParseState)
    requires
        0 <= st.pos <= toks.len(),
    ensures
        p_main_body(toks, st) matches Ok(s) ==> keeps_prefix(st, s) && s.pos <= toks.len(),
{
    let s5 = crate::parser::enter_function(st);
    lemma_block_keeps(toks, s5);
    if let Ok(s6) = p_block_body(toks, s5) {
        if let Ok(s7) = p_expect(toks, s6, TokenView::RBrace) {
            let s8 = emit(s7, Opcode::Ret);
            assert(s8.code.subrange(0, st.code.len() as int) =~= s6.code.subrange(0, st.code.len() as int));
        }
    }
}

proof fn lemma_program_keeps(toks: Seq<TokenView>, st: ParseState)
    requires
        0 <= st.pos <= toks.len(),
    ensures
        p_program(toks, st) matches Ok(s) ==> keeps_prefix(st, s) && s.pos <= toks.len(),
    decreases toks.len() - st.pos,
{
    let t = cur(toks, st.pos);
    if t == TokenView::EOF {
        assert(st.code.subrange(0, st.code.len() as int) =~= st.code);
    } else if t == TokenView::Int {
        let s0 = advance(st);
        if let TokenView::Ident(name) = cur(toks, s0.pos) {
            let s1 = advance(s0);
            if cur(toks, s1.pos) == TokenView::LParen {
                if let Ok(s3) = p_expect(toks, advance(s1), TokenView::RParen) {
                    if let Ok(s4) = p_expect(toks, s3, TokenView::LBrace) {
                        lemma_main_body_keeps(toks, s4);
                        if let Ok(s8) = p_main_body(toks, s4) {
                            if moved(toks, st, s8) {
                                lemma_program_keeps(toks, s8);
                                if let Ok(s9) = p_program(toks, s8) {
                                    lemma_keeps_chain(st, s8, s9);
                                }
                            }
                        }
                    }
                }
            } else {
                let s2 = crate::parser::declare_global(s1, name);
                crate::parser::lemma_skip_declaration_bounds(toks, s2.pos);
                let s3 = ParseState { pos: skip_declaration(toks, s2.pos), ..s2 };
                if let Ok(s4) = p_expect(toks, s3, TokenView::Semicolon) {
                    assert(s4.code.subrange(0, st.code.len() as int) =~= st.code);
                    if moved(toks, st, s4) {
                        lemma_program_keeps(toks, s4);
                        if let Ok(s9) = p_program(toks, s4) {
                            lemma_keeps_chain(st, s4, s9);
                        }
                    }
                }
            }
        }
    }
}

/// The first `main` of a program that parses: its body parses, and the code
/// of the whole program starts with the code of that body, at index 0 where
/// the parse started with no code.
proof fn lemma_first_main(toks: Seq<TokenView>, st: ParseState) -> (s8: ParseState)
    requires
        0 <= st.pos <= toks.len(),
        toks.len() <= parser_capacity(),
        0 <= st.global_count,
        2 * st.global_count <= st.pos,
        p_program(toks, st) is Ok,
        first_main(toks, st) is Some,
    ensures
        ({
            let s4 = first_main(toks, st)->0;
            &&& st.global_count <= s4.global_count
            &&& s4.code == st.code + zero_pushes(
                (global_pushes(s4.global_count) - global_pushes(st.global_count)) as nat,
            )
            &&& s4.code.len() - st.code.len() + 5 <= s4.pos - st.pos
            &&& s4.pos <= toks.len()
            &&& p_main_body(toks, s4) == Ok::<ParseState, Seq<char>>(s8)
            &&& keeps_prefix(s8, p_program(toks, st)->Ok_0)
            &&& keeps_prefix(s4, s8)
            &&& (p_program(toks, st)->Ok_0).pos <= toks.len()
        }),
    decreases toks.len() - st.pos,
{
    reveal_strlit("main");
    let s0 = advance(st);
    let name = cur(toks, s0.pos)->Ident_0;
    let s1 = advance(s0);
    if cur(toks, s1.pos) == TokenView::LParen {
        let s4 = advance(advance(advance(s1)));
        let s8 = p_main_body(toks, s4)->Ok_0;
        assert(zero_pushes(0) =~= Seq::<Opcode>::empty());
        assert(st.code + zero_pushes(0) =~= st.code);
        lemma_main_body_keeps(toks, s4);
        if moved(toks, st, s8) {
            lemma_program_keeps(toks, s8);
        } else {
            assert(s8.code.subrange(0, s8.code.len() as int) =~= s8.code);
        }
        s8
    } else {
        let s2 = crate::parser::declare_global(s1, name);
        crate::parser::lemma_skip_declaration_bounds(toks, s2.pos);
        let s3 = ParseState { pos: skip_declaration(toks, s2.pos), ..s2 };
        let s8 = lemma_first_main(toks, advance(s3));
        let s4 = first_main(toks, st)->0;
        let d = (global_pushes(s4.global_count) - global_pushes(st.global_count)) as nat;
        let d2 = (global_pushes(s4.global_count) - global_pushes(s2.global_count)) as nat;
        if st.global_count > 0 {
            assert(d == d2 + 1);
            assert(st.code + zero_pushes(d) =~= st.code.push(Opcode::Imm(0)) + zero_pushes(d2));
        } else {
            assert(d == d2);
            assert(s2.code == st.code);
        }
        s8
    }
}

/// A run cut short is cut off, or it ends as the longer one.
proof fn lemma_fewer_steps(code: Seq<Opcode>, st: VmState, m: nat, n: nat)
    requires
        m <= n,
    ensures
        vm_run(code, st, m) is OutOfSteps || vm_run(code, st, m) == vm_run(code, st, n),
    decreases m,
{
    if in_code(code, st.pc) && m > 0 {
        if let Step::Continue(next) = vm_step(code, st) {
            lemma_fewer_steps(code, next, (m - 1) as nat, (n - 1) as nat);
        }
    }
}

/// The parser compiles programs correctly: where a program parses and its
/// source says what it returns (`program_result`), the machine, run on its
/// code, returns that value within some number of steps, and under
/// `execute`'s step limit it returns that value, unless the limit cuts the
/// run off first.
pub proof fn compiled_programs_return_what_their_source_returns(toks: Seq<TokenView>, fuel: nat)
    requires
        toks.len() <= parser_capacity(),
        toks.len() <= usize::MAX,
        parse_tokens(toks) is Ok,
        program_result(toks, fuel) is Some,
    ensures
        parse_tokens(toks) matches Ok(code) && (exists|n: nat|
            outcome_within(code, n) == Outcome::Finished(Ok(program_result(toks, fuel)->0))) && (
        program_outcome(code) == Outcome::Finished(Ok(program_result(toks, fuel)->0))
            || program_outcome(code) is OutOfSteps),
{
    let st0 = initial_parse_state();
    let code = parse_tokens(toks)->Ok_0;
    let v = program_result(toks, fuel)->0;
    let s4 = first_main(toks, st0)->0;
    let s8 = lemma_first_main(toks, st0);
    lemma_program_keeps(toks, st0);
    let k = global_pushes(s4.global_count);
    assert(s4.code =~= zero_pushes(k));
    let s5 = crate::parser::enter_function(s4);
    lemma_block_keeps(toks, s5);
    let s6 = p_block_body(toks, s5)->Ok_0;
    assert(s8 == emit(advance(s6), Opcode::Ret));
    let t0 = initial_vm_state().stack;
    let t1 = t0 + Seq::new(k, |i: int| 0i64);
    assert(code.subrange(0, s8.code.len() as int) == s8.code);
    assert(holds_code(code, s5, s6)) by {
        assert(code.subrange(s5.code.len() as int, s6.code.len() as int) =~= s8.code.subrange(
            s5.code.len() as int,
            s6.code.len() as int,
        ));
        assert(s8.code.subrange(s5.code.len() as int, s6.code.len() as int) =~= s6.code.subrange(
            s5.code.len() as int,
            s6.code.len() as int,
        ));
    }
    assert(code[s6.code.len() as int] == Opcode::Ret) by {
        assert(code.subrange(0, s8.code.len() as int)[s6.code.len() as int] == code[s6.code.len() as int]);
    }
    // The pushes of the globals, then the body.
    assert(code.subrange(0, k as int) =~= zero_pushes(k)) by {
        assert(code.subrange(0, k as int) =~= s8.code.subrange(0, k as int));
        assert(s8.code.subrange(0, k as int) =~= s6.code.subrange(0, k as int));
        assert(s6.code.subrange(0, k as int) =~= s5.code);
    }
    lemma_zero_pushes_run(k, t0);
    let n = lemma_block_runs(toks, s5, t1, fuel, code, 1);
    lemma_vm_runs_straight_line(code, 0, zero_pushes(k), t0, n + 1);
    assert(initial_vm_state() == VmState { stack: t0, pc: 0i64 });
    assert(outcome_within(code, k + n + 1) == Outcome::Finished(Ok::<i64, Seq<char>>(v)));
    if k + n + 1 <= STEP_LIMIT {
        more_steps_same_end(code, initial_vm_state(), k + n + 1, STEP_LIMIT as nat);
    } else {
        lemma_fewer_steps(code, initial_vm_state(), STEP_LIMIT as nat, k + n + 1);
    }
}

/// The pushes of zeros push zeros.
proof fn lemma_zero_pushes_run(k: nat, t: Seq<i64>)
    ensures
        crate::evaluation::run_ops(zero_pushes(k), t) == Some(t + Seq::new(k, |i: int| 0i64)),
    decreases k,
{
    if k == 0 {
        assert(t + Seq::new(0, |i: int| 0i64) =~= t);
    } else {
        assert(zero_pushes(k).drop_first() =~= zero_pushes((k - 1) as nat));
        lemma_zero_pushes_run((k - 1) as nat, t.push(0));
        assert(t.push(0) + Seq::new((k - 1) as nat, |i: int| 0i64) =~= t + Seq::new(k, |i: int| 0i64));
    }
}

// ---------------------------------------------------------------------------
// Every variable in scope has a stack entry of its own.
// ---------------------------------------------------------------------------

/// One of the entries the first `count` globals take: entry 0, or one of
/// 32, 33, ... up to the last global's.
pub open spec fn global_taken(offset: i64, count: i64) -> bool {
    (offset == 0 && count >= 1) || (32 <= offset && offset <= 30 + count)
}

/// The globals hold distinct entries among those the globals declared so
/// far take.
pub open spec fn globals_apart(st: ParseState) -> bool {
    &&& 0 <= st.global_count
    &&& 2 * st.global_count <= st.pos
    &&& forall|n: Seq<char>| #[trigger]
        st.globals.contains_key(n) ==> global_taken(st.globals[n].offset, st.global_count)
    &&& forall|n1: Seq<char>, n2: Seq<char>|
        #![trigger st.globals[n1], st.globals[n2]]
        st.globals.contains_key(n1) && st.globals.contains_key(n2) && n1 != n2
            ==> st.globals[n1].offset != st.globals[n2].offset
}

/// The globals hold distinct entries, and the locals distinct entries from
/// 1 on, up to the last local offset handed out.
pub open spec fn entries_apart(st: ParseState) -> bool {
    &&& globals_apart(st)
    &&& 0 <= st.local_offset <= st.pos
    &&& forall|n: Seq<char>| #[trigger]
        st.locals.contains_key(n) ==> 0 < st.locals[n].offset <= st.local_offset
    &&& forall|n1: Seq<char>, n2: Seq<char>|
        #![trigger st.locals[n1], st.locals[n2]]
        st.locals.contains_key(n1) && st.locals.contains_key(n2) && n1 != n2
            ==> st.locals[n1].offset != st.locals[n2].offset
}

proof fn lemma_apart_moves(a: ParseState, b: ParseState)
    requires
        entries_apart(a),
        b.globals == a.globals,
        b.locals == a.locals,
        b.local_offset == a.local_offset,
        b.global_count == a.global_count,
        a.pos <= b.pos,
    ensures
        entries_apart(b),
{
}

proof fn lemma_decl_apart(toks: Seq<TokenView>, st: ParseState)
    requires
        0 <= st.pos <= toks.len(),
        toks.len() <= parser_capacity(),
        entries_apart(st),
    ensures
        p_decl_names(toks, st) matches Ok(s) ==> entries_apart(s) && s.globals == st.globals
            && s.global_count == st.global_count && st.pos < s.pos <= toks.len(),
    decreases toks.len() - st.pos,
{
    if let TokenView::Ident(name) = cur(toks, st.pos) {
        let offset = (st.local_offset + 1) as i64;
        let s1 = ParseState {
            pos: st.pos + 1,
            locals: st.locals.insert(name, SymbolView { name, class: SymbolClass::Local, offset }),
            local_offset: offset,
            ..st
        };
        assert(entries_apart(s1)) by {
            assert forall|n1: Seq<char>, n2: Seq<char>|
                s1.locals.contains_key(n1) && s1.locals.contains_key(n2) && n1 != n2 implies
                s1.locals[n1].offset != s1.locals[n2].offset by {
                if n1 != name && n2 != name {
                    assert(st.locals.contains_key(n1) && st.locals.contains_key(n2));
                } else if n1 == name {
                    assert(st.locals.contains_key(n2));
                } else {
                    assert(st.locals.contains_key(n1));
                }
            }
            assert forall|n: Seq<char>| #[trigger] s1.locals.contains_key(n) implies 0
                < s1.locals[n].offset <= s1.local_offset by {
                if n != name {
                    assert(st.locals.contains_key(n));
                }
            }
        }
        if cur(toks, s1.pos) == TokenView::Comma {
            lemma_decl_apart(toks, advance(s1));
        }
    }
}

proof fn lemma_if_apart(toks: Seq<TokenView>, st: ParseState)
    requires
        0 <= st.pos <= toks.len(),
        toks.len() <= parser_capacity(),
        entries_apart(st),
    ensures
        p_if(toks, st) matches Ok(s) ==> entries_apart(s) && s.globals == st.globals
            && s.global_count == st.global_count && st.pos <= s.pos <= toks.len(),
    decreases toks.len() - st.pos, 9nat,
{
    if let Ok(s1) = p_expect(toks, advance(st), TokenView::LParen) {
        lemma_expr_keeps(toks, s1);
        if let Ok(s2) = p_expr(toks, s1) {
            if let Ok(s3) = p_expect(toks, s2, TokenView::RParen) {
                let s4 = emit(s3, Opcode::Jz(0));
                if moved(toks, st, s4) {
                    lemma_apart_moves(st, s4);
                    lemma_stmt_apart(toks, s4);
                    if let Ok(s5) = p_stmt(toks, s4) {
                        if cur(toks, s5.pos) == TokenView::Else {
                            let s7 = emit(advance(s5), Opcode::Jmp(0));
                            let s8 = patch(s7, s3.code.len() as int, Opcode::Jz(s7.code.len() as i64));
                            lemma_apart_moves(s5, s8);
                            if moved(toks, st, s8) {
                                lemma_stmt_apart(toks, s8);
                            }
                        }
                    }
                }
            }
        }
    }
}

proof fn lemma_while_apart(toks: Seq<TokenView>, st: ParseState)
    requires
        0 <= st.pos <= toks.len(),
        toks.len() <= parser_capacity(),
        entries_apart(st),
    ensures
        p_while(toks, st) matches Ok(s) ==> entries_apart(s) && s.globals == st.globals
            && s.global_count == st.global_count && st.pos <= s.pos <= toks.len(),
    decreases toks.len() - st.pos, 9nat,
{
    if let Ok(s1) = p_expect(toks, advance(st), TokenView::LParen) {
        lemma_expr_keeps(toks, s1);
        if let Ok(s2) = p_expr(toks, s1) {
            if let Ok(s3) = p_expect(toks, s2, TokenView::RParen) {
                let s4 = emit(s3, Opcode::Jz(0));
                if moved(toks, st, s4) {
                    lemma_apart_moves(st, s4);
                    lemma_stmt_apart(toks, s4);
                }
            }
        }
    }
}

proof fn lemma_block_apart(toks: Seq<TokenView>, st: ParseState)
    requires
        0 <= st.pos <= toks.len(),
        toks.len() <= parser_capacity(),
        entries_apart(st),
    ensures
        p_block_body(toks, st) matches Ok(s) ==> entries_apart(s) && s.globals == st.globals
            && s.global_count == st.global_count && st.pos <= s.pos <= toks.len(),
    decreases toks.len() - st.pos, 11nat,
{
    if cur(toks, st.pos) != TokenView::RBrace {
        lemma_stmt_apart(toks, st);
        if let Ok(s1) = p_stmt(toks, st) {
            if moved(toks, st, s1) {
                lemma_block_apart(toks, s1);
            }
        }
    }
}

proof fn lemma_stmt_apart(toks: Seq<TokenView>, st: ParseState)
    requires
        0 <= st.pos <= toks.len(),
        toks.len() <= parser_capacity(),
        entries_apart(st),
    ensures
        p_stmt(toks, st) matches Ok(s) ==> entries_apart(s) && s.globals == st.globals
            && s.global_count == st.global_count && st.pos <= s.pos <= toks.len(),
    decreases toks.len() - st.pos, 10nat,
{
    match cur(toks, st.pos) {
        TokenView::Return => {
            lemma_expr_keeps(toks, advance(st));
        },
        TokenView::If => lemma_if_apart(toks, st),
        TokenView::While => lemma_while_apart(toks, st),
        TokenView::LBrace => {
            lemma_apart_moves(st, advance(st));
            lemma_block_apart(toks, advance(st));
        },
        TokenView::Int => {
            lemma_apart_moves(st, advance(st));
            lemma_decl_apart(toks, advance(st));
        },
        _ => {
            lemma_expr_keeps(toks, st);
        },
    }
}

proof fn lemma_enter_apart(st: ParseState)
    requires
        globals_apart(st),
    ensures
        entries_apart(enter_function(st)),
{
}

proof fn lemma_first_main_apart(toks: Seq<TokenView>, st: ParseState)
    requires
        0 <= st.pos <= toks.len(),
        toks.len() <= parser_capacity(),
        globals_apart(st),
    ensures
        first_main(toks, st) matches Some(s4) ==> globals_apart(s4),
    decreases toks.len() - st.pos,
{
    if cur(toks, st.pos) == TokenView::Int {
        let s0 = advance(st);
        if let TokenView::Ident(name) = cur(toks, s0.pos) {
            let s1 = advance(s0);
            if cur(toks, s1.pos) != TokenView::LParen {
                let s2 = declare_global(s1, name);
                assert(globals_apart(s2)) by {
                    assert forall|n1: Seq<char>, n2: Seq<char>|
                        s2.globals.contains_key(n1) && s2.globals.contains_key(n2) && n1 != n2
                        implies s2.globals[n1].offset != s2.globals[n2].offset by {
                        if n1 != name && n2 != name {
                            assert(st.globals.contains_key(n1) && st.globals.contains_key(n2));
                        } else if n1 == name {
                            assert(st.globals.contains_key(n2));
                        } else {
                            assert(st.globals.contains_key(n1));
                        }
                    }
                    assert forall|n: Seq<char>| #[trigger] s2.globals.contains_key(n) implies global_taken(
                        s2.globals[n].offset,
                        s2.global_count,
                    ) by {
                        if n != name {
                            assert(st.globals.contains_key(n));
                        }
                    }
                }
                crate::parser::lemma_skip_declaration_bounds(toks, s2.pos);
                let s3 = ParseState { pos: skip_declaration(toks, s2.pos), ..s2 };
                if cur(toks, s3.pos) == TokenView::Semicolon && moved(toks, st, advance(s3)) {
                    lemma_first_main_apart(toks, advance(s3));
                }
            }
        }
    }
}

/// Every variable in scope has a stack entry of its own, so storing into one
/// never changes another:
/// - where the entries are apart and fewer than 32 locals have been
///   declared, two different names in scope have different offsets;
/// - a function body starts with its entries apart, where the globals are;
/// - parsing a statement keeps the entries apart;
/// - the first function of a program starts with its entries apart.
pub proof fn variables_have_their_own_entries(toks: Seq<TokenView>, st: ParseState)
    requires
        toks.len() <= parser_capacity(),
        0 <= st.pos <= toks.len(),
    ensures
        entries_apart(st) && st.local_offset < 32 ==> forall|n1: Seq<char>, n2: Seq<char>|
            #![trigger variable_offset(st, n1), variable_offset(st, n2)]
            n1 != n2 && variable_offset(st, n1) is Some && variable_offset(st, n2) is Some
                ==> variable_offset(st, n1) != variable_offset(st, n2),
        globals_apart(st) ==> entries_apart(enter_function(st)),
        entries_apart(st) && p_stmt(toks, st) is Ok ==> entries_apart(p_stmt(toks, st)->Ok_0),
        first_main(toks, initial_parse_state()) matches Some(s4) ==> entries_apart(
            enter_function(s4),
        ),
{
    if entries_apart(st) {
        lemma_stmt_apart(toks, st);
    }
    if entries_apart(st) && st.local_offset < 32 {
        assert forall|n1: Seq<char>, n2: Seq<char>|
            n1 != n2 && variable_offset(st, n1) is Some && variable_offset(st, n2) is Some implies
            variable_offset(st, n1) != variable_offset(st, n2) by {
            if st.locals.contains_key(n1) && st.locals.contains_key(n2) {
            } else if !st.locals.contains_key(n1) && !st.locals.contains_key(n2) {
                assert(st.globals.contains_key(n1) && st.globals.contains_key(n2));
            } else if st.locals.contains_key(n1) {
                assert(st.globals.contains_key(n2));
            } else {
                assert(st.globals.contains_key(n1));
            }
        }
    }
    if globals_apart(st) {
        lemma_enter_apart(st);
    }
    if let Some(s4) = first_main(toks, initial_parse_state()) {
        lemma_first_main_apart(toks, initial_parse_state());
        lemma_enter_apart(s4);
    }
}

} // verus!
