//! Assignments and `while` loops: the proof that a program which sets a
//! variable and then runs a loop over it returns the value the loop ends
//! with.
//!
//! An assignment `x = e;` stores the value of `e` in the stack entry of `x`;
//! a loop `while (c) x = g;` replaces `x` by the value of `g` as long as the
//! value of `c` is not zero.

use vstd::prelude::*;
use crate::lexer::TokenView;
use crate::parser::{
    cur, advance, emit, patch, moved, grew_within, variable_offset, ParseState, SymbolView,
    SymbolClass, p_expr, p_assignment, p_additive, p_additive_rest, p_term, p_term_rest, p_factor,
    p_stmt, p_block_body, p_main_body, p_program, p_expect, initial_parse_state, parse_tokens,
    parser_capacity,
};
use crate::vm::{
    Opcode, VmState, Outcome, vm_run, program_outcome, initial_vm_state, outcome_within, STEP_LIMIT,
    more_steps_same_end,
};
use crate::evaluation::{
    emitted, appends_code, same_tables, bottom_of, value_expr, run_ops, lemma_emit_appends,
    lemma_appends_chain, lemma_bottom_of_push, lemma_expr_computes, lemma_run_ops_append,
    lemma_run_ops_single, lemma_vm_runs_straight_line,
};

verus! {

// ---------------------------------------------------------------------------
// Parsing an expression does not look at the code emitted before it.
// ---------------------------------------------------------------------------

/// The parse `r2` from the state `st` with its code replaced by `c2` is the
/// parse `r` from `st`, but for the code before it: the same error, or the
/// same state with the same opcodes appended to `c2`.
pub open spec fn same_parse_on(
    st: ParseState,
    r: Result<ParseState, Seq<char>>,
    c2: Seq<Opcode>,
    r2: Result<ParseState, Seq<char>>,
) -> bool {
    match r {
        Ok(s) => {
            &&& appends_code(st, s)
            &&& grew_within(st, s)
            &&& s.local_offset == st.local_offset
            &&& s.global_count == st.global_count
            &&& r2 == Ok::<ParseState, Seq<char>>(ParseState { code: c2 + emitted(st, s), ..s })
        },
        Err(e) => r2 == Err::<ParseState, Seq<char>>(e),
    }
}

proof fn lemma_frame_step(
    st: ParseState,
    s1: ParseState,
    op: Opcode,
    s3: ParseState,
    c2: Seq<Opcode>,
)
    requires
        appends_code(advance(st), s1),
        grew_within(advance(st), s1),
        appends_code(emit(s1, op), s3),
        grew_within(emit(s1, op), s3),
        emit(s1, op).pos <= s3.pos,
    ensures
        appends_code(st, s3),
        grew_within(st, s3),
        (c2 + emitted(st, s1)).push(op) + emitted(emit(s1, op), s3) == c2 + emitted(st, s3),
{
    let s2 = emit(s1, op);
    lemma_emit_appends(s1, op);
    lemma_appends_chain(st, s1, s2);
    lemma_appends_chain(st, s2, s3);
    assert(emitted(st, s2) =~= emitted(st, s1).push(op));
    assert((c2 + emitted(st, s1)).push(op) + emitted(s2, s3) =~= c2 + emitted(st, s3));
}

proof fn lemma_factor_frame(toks: Seq<TokenView>, st: ParseState, c2: Seq<Opcode>)
    requires
        0 <= st.pos <= toks.len(),
    ensures
        same_parse_on(st, p_factor(toks, st), c2, p_factor(toks, ParseState { code: c2, ..st })),
    decreases toks.len() - st.pos, 3nat,
{
    let st2 = ParseState { code: c2, ..st };
    match cur(toks, st.pos) {
        TokenView::Num(n) => {
            let s = emit(advance(st), Opcode::Imm(n));
            assert(s.code.subrange(0, st.code.len() as int) =~= st.code);
            assert(c2 + emitted(st, s) =~= c2.push(Opcode::Imm(n)));
        },
        TokenView::Ident(name) => {
            if let Ok(s) = p_factor(toks, st) {
                assert(s.code.subrange(0, st.code.len() as int) =~= st.code);
                assert(c2 + emitted(st, s) =~= st2.code.push(s.code.last()));
            }
        },
        TokenView::LParen => {
            lemma_expr_frame(toks, advance(st), c2);
            if let Ok(s1) = p_expr(toks, advance(st)) {
                if cur(toks, s1.pos) == TokenView::RParen {
                    let s = advance(s1);
                    assert(emitted(st, s) =~= emitted(advance(st), s1));
                }
            }
        },
        _ => {},
    }
}

proof fn lemma_term_rest_frame(toks: Seq<TokenView>, st: ParseState, c2: Seq<Opcode>)
    requires
        0 <= st.pos <= toks.len(),
    ensures
        same_parse_on(st, p_term_rest(toks, st), c2, p_term_rest(toks, ParseState { code: c2, ..st })),
    decreases toks.len() - st.pos, 4nat,
{
    let t = cur(toks, st.pos);
    if t == TokenView::Mul || t == TokenView::Div {
        let op = if t == TokenView::Mul {
            Opcode::Mul
        } else {
            Opcode::Div
        };
        lemma_factor_frame(toks, advance(st), c2);
        crate::parser::successful_parses_consume_tokens(toks, advance(st));
        if let Ok(s1) = p_factor(toks, advance(st)) {
            let s2 = emit(s1, op);
            let c3 = (c2 + emitted(st, s1)).push(op);
            assert(ParseState { code: c2 + emitted(advance(st), s1), ..s1 }.code.push(op) == c3);
            if moved(toks, st, s2) {
                lemma_term_rest_frame(toks, s2, c3);
                crate::parser::successful_parses_consume_tokens(toks, s2);
                if let Ok(s3) = p_term_rest(toks, s2) {
                    lemma_frame_step(st, s1, op, s3, c2);
                }
            } else {
                assert(s2.code.subrange(0, st.code.len() as int) =~= st.code);
                assert(emitted(st, s2) =~= emitted(st, s1).push(op));
            }
        }
    } else {
        assert(st.code.subrange(0, st.code.len() as int) =~= st.code);
        assert(c2 + emitted(st, st) =~= c2);
    }
}

proof fn lemma_term_frame(toks: Seq<TokenView>, st: ParseState, c2: Seq<Opcode>)
    requires
        0 <= st.pos <= toks.len(),
    ensures
        same_parse_on(st, p_term(toks, st), c2, p_term(toks, ParseState { code: c2, ..st })),
    decreases toks.len() - st.pos, 5nat,
{
    lemma_factor_frame(toks, st, c2);
    crate::parser::successful_parses_consume_tokens(toks, st);
    if let Ok(s1) = p_factor(toks, st) {
        let c3 = c2 + emitted(st, s1);
        lemma_term_rest_frame(toks, s1, c3);
        crate::parser::successful_parses_consume_tokens(toks, s1);
        if let Ok(s2) = p_term_rest(toks, s1) {
            assert(s2.code.subrange(0, st.code.len() as int) =~= s1.code.subrange(0, st.code.len() as int));
            assert(emitted(st, s2) =~= emitted(st, s1) + emitted(s1, s2));
            assert(c3 + emitted(s1, s2) =~= c2 + emitted(st, s2));
        }
    }
}

proof fn lemma_additive_rest_frame(toks: Seq<TokenView>, st: ParseState, c2: Seq<Opcode>)
    requires
        0 <= st.pos <= toks.len(),
    ensures
        same_parse_on(
            st,
            p_additive_rest(toks, st),
            c2,
            p_additive_rest(toks, ParseState { code: c2, ..st }),
        ),
    decreases toks.len() - st.pos, 6nat,
{
    let t = cur(toks, st.pos);
    if t == TokenView::Plus || t == TokenView::Minus {
        let op = if t == TokenView::Plus {
            Opcode::Add
        } else {
            Opcode::Sub
        };
        lemma_term_frame(toks, advance(st), c2);
        crate::parser::successful_parses_consume_tokens(toks, advance(st));
        if let Ok(s1) = p_term(toks, advance(st)) {
            let s2 = emit(s1, op);
            let c3 = (c2 + emitted(st, s1)).push(op);
            assert(ParseState { code: c2 + emitted(advance(st), s1), ..s1 }.code.push(op) == c3);
            if moved(toks, st, s2) {
                lemma_additive_rest_frame(toks, s2, c3);
                crate::parser::successful_parses_consume_tokens(toks, s2);
                if let Ok(s3) = p_additive_rest(toks, s2) {
                    lemma_frame_step(st, s1, op, s3, c2);
                }
            } else {
                assert(s2.code.subrange(0, st.code.len() as int) =~= st.code);
                assert(emitted(st, s2) =~= emitted(st, s1).push(op));
            }
        }
    } else {
        assert(st.code.subrange(0, st.code.len() as int) =~= st.code);
        assert(c2 + emitted(st, st) =~= c2);
    }
}

proof fn lemma_additive_frame(toks: Seq<TokenView>, st: ParseState, c2: Seq<Opcode>)
    requires
        0 <= st.pos <= toks.len(),
    ensures
        same_parse_on(st, p_additive(toks, st), c2, p_additive(toks, ParseState { code: c2, ..st })),
    decreases toks.len() - st.pos, 6nat,
{
    lemma_term_frame(toks, st, c2);
    crate::parser::successful_parses_consume_tokens(toks, st);
    if let Ok(s1) = p_term(toks, st) {
        let c3 = c2 + emitted(st, s1);
        lemma_additive_rest_frame(toks, s1, c3);
        crate::parser::successful_parses_consume_tokens(toks, s1);
        if let Ok(s2) = p_additive_rest(toks, s1) {
            assert(s2.code.subrange(0, st.code.len() as int) =~= s1.code.subrange(0, st.code.len() as int));
            assert(emitted(st, s2) =~= emitted(st, s1) + emitted(s1, s2));
            assert(c3 + emitted(s1, s2) =~= c2 + emitted(st, s2));
        }
    }
}

proof fn lemma_assignment_frame(toks: Seq<TokenView>, st: ParseState, c2: Seq<Opcode>)
    requires
        0 <= st.pos <= toks.len(),
    ensures
        same_parse_on(st, p_assignment(toks, st), c2, p_assignment(toks, ParseState { code: c2, ..st })),
    decreases toks.len() - st.pos, 7nat,
{
    lemma_additive_frame(toks, st, c2);
    if cur(toks, st.pos) is Ident && cur(toks, st.pos + 1) == TokenView::Assign {
        let s0 = ParseState { pos: st.pos + 2, ..st };
        lemma_assignment_frame(toks, s0, c2);
        if let Ok(s1) = p_assignment(toks, s0) {
            if let Ok(s) = p_assignment(toks, st) {
                assert(s.code.subrange(0, st.code.len() as int) =~= s1.code.subrange(0, st.code.len() as int));
                assert(emitted(st, s) =~= emitted(s0, s1).push(s.code.last()));
                assert(c2 + emitted(st, s) =~= (c2 + emitted(s0, s1)).push(s.code.last()));
            }
        }
    }
}

pub(crate) proof fn lemma_expr_frame(toks: Seq<TokenView>, st: ParseState, c2: Seq<Opcode>)
    requires
        0 <= st.pos <= toks.len(),
    ensures
        same_parse_on(st, p_expr(toks, st), c2, p_expr(toks, ParseState { code: c2, ..st })),
    decreases toks.len() - st.pos, 8nat,
{
    lemma_assignment_frame(toks, st, c2);
}

// ---------------------------------------------------------------------------
// What a loop computes, and the machine running its code.
// ---------------------------------------------------------------------------

/// The value of the expression from `pos`, if it has one and ends at `end`.
pub open spec fn value_between(
    toks: Seq<TokenView>,
    env: ParseState,
    base: Seq<i64>,
    pos: int,
    end: int,
) -> Option<i64> {
    match value_expr(toks, env, base, pos) {
        Some((v, p)) => if p == end {
            Some(v)
        } else {
            None
        },
        None => None,
    }
}

/// The variables' stack after `while (c) x = g;` starts on `base`, where
/// the condition spans `c..ce`, the new value of `x` spans `g..ge`, and `x`
/// is the stack entry `slot`: as long as the condition's value is not zero,
/// the entry takes the value of `g`. `None` where the condition is tested
/// more than `fuel` times, or an expression has no value.
pub open spec fn while_iterate(
    toks: Seq<TokenView>,
    env: ParseState,
    slot: int,
    c: int,
    ce: int,
    g: int,
    ge: int,
    base: Seq<i64>,
    fuel: nat,
) -> Option<Seq<i64>>
    decreases fuel,
{
    if fuel == 0 {
        None
    } else {
        match value_between(toks, env, base, c, ce) {
            None => None,
            Some(vc) => if vc == 0 {
                Some(base)
            } else {
                match value_between(toks, env, base, g, ge) {
                    None => None,
                    Some(vg) => while_iterate(
                        toks,
                        env,
                        slot,
                        c,
                        ce,
                        g,
                        ge,
                        base.update(slot, vg),
                        (fuel - 1) as nat,
                    ),
                }
            },
        }
    }
}

/// The code of `while (c) x = g;` at `lstart` in `code`: the condition's
/// opcodes, a `Jz` past the loop, the new value's opcodes, a store into
/// `slot`, and a `Jmp` back.
pub open spec fn while_layout(
    code: Seq<Opcode>,
    lstart: int,
    ops_c: Seq<Opcode>,
    ops_g: Seq<Opcode>,
    slot: i64,
) -> bool {
    let jz = lstart + ops_c.len();
    let st_at = jz + 1 + ops_g.len();
    let exit = st_at + 2;
    &&& 0 <= lstart
    &&& exit <= code.len()
    &&& code.len() < i64::MAX
    &&& code.len() <= usize::MAX
    &&& code.subrange(lstart, jz) == ops_c
    &&& code[jz] == Opcode::Jz(exit as i64)
    &&& code.subrange(jz + 1, st_at) == ops_g
    &&& code[st_at] == Opcode::St(slot)
    &&& code[st_at + 1] == Opcode::Jmp(lstart as i64)
}

/// The machine runs the code of a loop as `while_iterate` does: from the
/// loop's start it reaches the first opcode after the loop, within `fuel`
/// rounds of the loop's code, with the final variables at the bottom of
/// its stack.
#[verifier::spinoff_prover]
proof fn lemma_while_runs(
    toks: Seq<TokenView>,
    env: ParseState,
    q1: ParseState,
    qg: ParseState,
    ce: int,
    ge: int,
    code: Seq<Opcode>,
    lstart: int,
    ops_c: Seq<Opcode>,
    ops_g: Seq<Opcode>,
    slot: i64,
    base: Seq<i64>,
    t: Seq<i64>,
    fuel: nat,
    rest: nat,
) -> (r: (nat, Seq<i64>))
    requires
        same_tables(q1, env),
        same_tables(qg, env),
        ops_c == emitted(q1, p_expr(toks, q1)->Ok_0),
        ops_g == emitted(qg, p_expr(toks, qg)->Ok_0),
        while_layout(code, lstart, ops_c, ops_g, slot),
        base.len() == 32,
        0 <= slot < 32,
        bottom_of(base, t),
        while_iterate(toks, env, slot as int, q1.pos, ce, qg.pos, ge, base, fuel) is Some,
    ensures
        r.0 <= fuel * (ops_c.len() + ops_g.len() + 3),
        bottom_of(while_iterate(toks, env, slot as int, q1.pos, ce, qg.pos, ge, base, fuel)->0, r.1),
        vm_run(code, VmState { stack: t, pc: lstart as i64 }, r.0 + rest) == vm_run(
            code,
            VmState { stack: r.1, pc: (lstart + ops_c.len() + ops_g.len() + 3) as i64 },
            rest,
        ),
    decreases fuel,
{
    let w = ops_c.len() + ops_g.len() + 3;
    let jz = lstart + ops_c.len();
    let st_at = jz + 1 + ops_g.len();
    let exit = st_at + 2;
    let vc = value_between(toks, env, base, q1.pos, ce)->0;
    lemma_expr_computes(toks, env, base, q1, t);
    let tv = t.push(vc);
    assert(code[jz] == Opcode::Jz(exit as i64));
    if vc == 0 {
        let n = (ops_c.len() + 1) as nat;
        lemma_vm_runs_straight_line(code, lstart, ops_c, t, rest + 1);
        assert(vm_run(code, VmState { stack: tv, pc: jz as i64 }, rest + 1) == vm_run(
            code,
            VmState { stack: tv, pc: exit as i64 },
            rest,
        ));
        assert(n <= fuel * w) by (nonlinear_arith)
            requires
                n <= w,
                fuel >= 1,
        ;
        lemma_bottom_of_push(base, t, vc);
        assert(n + rest == rest + 1 + ops_c.len());
        (n, tv)
    } else {
        let vg = value_between(toks, env, base, qg.pos, ge)->0;
        lemma_bottom_of_push(base, t, vc);
        lemma_expr_computes(toks, env, base, qg, tv);
        let ops_gs = ops_g.push(Opcode::St(slot));
        let t2 = tv.update(slot as int, vg);
        let base2 = base.update(slot as int, vg);
        lemma_run_ops_single(Opcode::St(slot), tv.push(vg));
        assert(tv.push(vg).drop_last() =~= tv);
        lemma_run_ops_append(ops_g, seq![Opcode::St(slot)], tv);
        assert(ops_g + seq![Opcode::St(slot)] =~= ops_gs);
        assert(run_ops(ops_gs, tv) == Some(t2));
        assert(t2.subrange(0, base.len() as int) =~= base2);
        assert(code.subrange(jz + 1, st_at + 1) =~= ops_gs);
        let (n_rec, t_end) = lemma_while_runs(
            toks,
            env,
            q1,
            qg,
            ce,
            ge,
            code,
            lstart,
            ops_c,
            ops_g,
            slot,
            base2,
            t2,
            (fuel - 1) as nat,
            rest,
        );
        let n = w + n_rec;
        let s3 = n_rec + rest;
        assert(vm_run(code, VmState { stack: t2, pc: (st_at + 1) as i64 }, s3 + 1) == vm_run(
            code,
            VmState { stack: t2, pc: lstart as i64 },
            s3,
        ));
        lemma_vm_runs_straight_line(code, jz + 1, ops_gs, tv, s3 + 1);
        assert(vm_run(code, VmState { stack: tv, pc: jz as i64 }, s3 + 1 + ops_gs.len() + 1)
            == vm_run(code, VmState { stack: tv, pc: (jz + 1) as i64 }, s3 + 1 + ops_gs.len()));
        lemma_vm_runs_straight_line(code, lstart, ops_c, t, s3 + 1 + ops_gs.len() + 1);
        assert(n + rest == s3 + 1 + ops_gs.len() + 1 + ops_c.len());
        assert(n <= fuel * w) by (nonlinear_arith)
            requires
                n_rec <= (fuel - 1) * w,
                n == w + n_rec,
                fuel >= 1,
        ;
        (n, t_end)
    }
}

// ---------------------------------------------------------------------------
// A program that sets a variable and loops over it.
// ---------------------------------------------------------------------------

/// The tokens of `int main() { int x; x = a; while (c) x = g; return x; }`.
#[verifier::opaque]
pub open spec fn main_looping(
    x: Seq<char>,
    a: Seq<TokenView>,
    c: Seq<TokenView>,
    g: Seq<TokenView>,
) -> Seq<TokenView> {
    seq![
        TokenView::Int,
        TokenView::Ident("main"@),
        TokenView::LParen,
        TokenView::RParen,
        TokenView::LBrace,
        TokenView::Int,
        TokenView::Ident(x),
        TokenView::Semicolon,
        TokenView::Ident(x),
        TokenView::Assign,
    ] + a + seq![TokenView::Semicolon, TokenView::While, TokenView::LParen] + c + seq![
        TokenView::RParen,
        TokenView::Ident(x),
        TokenView::Assign,
    ] + g + seq![
        TokenView::Semicolon,
        TokenView::Return,
        TokenView::Ident(x),
        TokenView::Semicolon,
        TokenView::RBrace,
        TokenView::EOF,
    ]
}

/// The symbol tables inside that `main`: the one local `x`, at offset 1.
pub open spec fn loop_env(x: Seq<char>) -> ParseState {
    ParseState {
        pos: 0,
        code: Seq::empty(),
        globals: Map::empty(),
        locals: Map::empty().insert(x, SymbolView { name: x, class: SymbolClass::Local, offset: 1 }),
        local_offset: 1,
        global_count: 0,
    }
}

/// Whether the tokens from `pos` to `end` are one expression, in the symbol
/// tables of `env`.
pub open spec fn spans_expression(toks: Seq<TokenView>, env: ParseState, pos: int, end: int) -> bool {
    p_expr(toks, ParseState { pos, ..env }) matches Ok(s) && s.pos == end
}

/// The variables' stack when the loop of `main_looping(x, a, c, g)` ends,
/// within `fuel` tests of its condition: `x` (the entry at offset 1 of 32
/// zeros) first takes the value of `a`, then the loop runs.
pub open spec fn loop_result(
    x: Seq<char>,
    a: Seq<TokenView>,
    c: Seq<TokenView>,
    g: Seq<TokenView>,
    fuel: nat,
) -> Option<Seq<i64>> {
    let toks = main_looping(x, a, c, g);
    let na = a.len() as int;
    let nc = c.len() as int;
    let ng = g.len() as int;
    let base = crate::vm::initial_vm_state().stack;
    match value_between(toks, loop_env(x), base, 10, 10 + na) {
        Some(va) => while_iterate(
            toks,
            loop_env(x),
            1,
            13 + na,
            13 + na + nc,
            16 + na + nc,
            16 + na + nc + ng,
            base.update(1, va),
            fuel,
        ),
        None => None,
    }
}

proof fn lemma_looping_tokens(x: Seq<char>, a: Seq<TokenView>, c: Seq<TokenView>, g: Seq<TokenView>)
    ensures
        ({
            let toks = main_looping(x, a, c, g);
            let na = a.len() as int;
            let nc = c.len() as int;
            let ng = g.len() as int;
            &&& toks.len() == 22 + na + nc + ng
            &&& toks[0] == TokenView::Int
            &&& toks[1] == TokenView::Ident("main"@)
            &&& toks[2] == TokenView::LParen
            &&& toks[3] == TokenView::RParen
            &&& toks[4] == TokenView::LBrace
            &&& toks[5] == TokenView::Int
            &&& toks[6] == TokenView::Ident(x)
            &&& toks[7] == TokenView::Semicolon
            &&& toks[8] == TokenView::Ident(x)
            &&& toks[9] == TokenView::Assign
            &&& toks[10 + na] == TokenView::Semicolon
            &&& toks[11 + na] == TokenView::While
            &&& toks[12 + na] == TokenView::LParen
            &&& toks[13 + na + nc] == TokenView::RParen
            &&& toks[14 + na + nc] == TokenView::Ident(x)
            &&& toks[15 + na + nc] == TokenView::Assign
            &&& toks[16 + na + nc + ng] == TokenView::Semicolon
            &&& toks[17 + na + nc + ng] == TokenView::Return
            &&& toks[18 + na + nc + ng] == TokenView::Ident(x)
            &&& toks[19 + na + nc + ng] == TokenView::Semicolon
            &&& toks[20 + na + nc + ng] == TokenView::RBrace
            &&& toks[21 + na + nc + ng] == TokenView::EOF
        }),
{
    reveal(main_looping);
}

/// A statement `x = e;` whose right side parses.
pub(crate) proof fn lemma_assignment_statement(
    toks: Seq<TokenView>,
    st: ParseState,
    x: Seq<char>,
    sr: ParseState,
)
    requires
        cur(toks, st.pos) == TokenView::Ident(x),
        cur(toks, st.pos + 1) == TokenView::Assign,
        p_expr(toks, ParseState { pos: st.pos + 2, ..st }) == Ok::<ParseState, Seq<char>>(sr),
        variable_offset(sr, x) is Some,
        cur(toks, sr.pos) == TokenView::Semicolon,
    ensures
        p_stmt(toks, st) == Ok::<ParseState, Seq<char>>(
            advance(emit(sr, Opcode::St(variable_offset(sr, x)->0))),
        ),
{
    assert(p_assignment(toks, ParseState { pos: st.pos + 2, ..st }) == Ok::<ParseState, Seq<char>>(sr));
    assert(p_expr(toks, st) == Ok::<ParseState, Seq<char>>(
        emit(sr, Opcode::St(variable_offset(sr, x)->0)),
    ));
}

/// A statement `while (c) s` whose parts parse.
proof fn lemma_while_statement(toks: Seq<TokenView>, st: ParseState, qc: ParseState, q5: ParseState)
    requires
        cur(toks, st.pos) == TokenView::While,
        cur(toks, st.pos + 1) == TokenView::LParen,
        p_expr(toks, advance(advance(st))) == Ok::<ParseState, Seq<char>>(qc),
        cur(toks, qc.pos) == TokenView::RParen,
        moved(toks, st, emit(advance(qc), Opcode::Jz(0))),
        p_stmt(toks, emit(advance(qc), Opcode::Jz(0))) == Ok::<ParseState, Seq<char>>(q5),
    ensures
        p_stmt(toks, st) == Ok::<ParseState, Seq<char>>(
            patch(
                emit(q5, Opcode::Jmp(st.code.len() as i64)),
                qc.code.len() as int,
                Opcode::Jz((q5.code.len() + 1) as i64),
            ),
        ),
{
}

/// The code of `main_looping` from the codes of its four expressions.
pub open spec fn looping_code(
    ops_a: Seq<Opcode>,
    ops_c: Seq<Opcode>,
    ops_g: Seq<Opcode>,
    ops_r: Seq<Opcode>,
) -> Seq<Opcode> {
    let l = ops_a.len() + 1;
    let exit = l + ops_c.len() + ops_g.len() + 3;
    ops_a + seq![Opcode::St(1)] + ops_c + seq![Opcode::Jz(exit as i64)] + ops_g + seq![
        Opcode::St(1),
        Opcode::Jmp(l as i64),
    ] + ops_r + seq![Opcode::Ret, Opcode::Ret]
}

proof fn lemma_looping_layout(
    ops_a: Seq<Opcode>,
    ops_c: Seq<Opcode>,
    ops_g: Seq<Opcode>,
    ops_r: Seq<Opcode>,
)
    ensures
        ({
            let p = ops_a + seq![Opcode::St(1)];
            let q5 = p + ops_c + seq![Opcode::Jz(0)] + ops_g + seq![Opcode::St(1)];
            let s6 = q5.push(Opcode::Jmp(p.len() as i64));
            let l = ops_a.len() + 1int;
            let exit = l + ops_c.len() + ops_g.len() + 3;
            &&& s6.update(p.len() + ops_c.len() as int, Opcode::Jz((q5.len() + 1) as i64)) + ops_r + seq![
                Opcode::Ret,
                Opcode::Ret,
            ] == looping_code(ops_a, ops_c, ops_g, ops_r)
            &&& looping_code(ops_a, ops_c, ops_g, ops_r).len() == exit + ops_r.len() + 2
            &&& looping_code(ops_a, ops_c, ops_g, ops_r).subrange(0, l) == p
            &&& looping_code(ops_a, ops_c, ops_g, ops_r).subrange(exit, exit + ops_r.len()) == ops_r
            &&& looping_code(ops_a, ops_c, ops_g, ops_r)[exit + ops_r.len()] == Opcode::Ret
            &&& (looping_code(ops_a, ops_c, ops_g, ops_r).len() < i64::MAX
                && looping_code(ops_a, ops_c, ops_g, ops_r).len() <= usize::MAX ==> while_layout(
                looping_code(ops_a, ops_c, ops_g, ops_r),
                l,
                ops_c,
                ops_g,
                1,
            ))
        }),
{
    let p = ops_a + seq![Opcode::St(1)];
    let q5 = p + ops_c + seq![Opcode::Jz(0)] + ops_g + seq![Opcode::St(1)];
    let s6 = q5.push(Opcode::Jmp(p.len() as i64));
    let l = ops_a.len() + 1int;
    let exit = l + ops_c.len() + ops_g.len() + 3;
    let code = looping_code(ops_a, ops_c, ops_g, ops_r);
    assert(s6.update(p.len() + ops_c.len() as int, Opcode::Jz((q5.len() + 1) as i64)) + ops_r + seq![
        Opcode::Ret,
        Opcode::Ret,
    ] =~= code);
    assert(code.subrange(0, l) =~= p);
    assert(code.subrange(exit, exit + ops_r.len()) =~= ops_r);
    let jz = l + ops_c.len();
    let st_at = jz + 1 + ops_g.len();
    assert(code.subrange(l, jz) =~= ops_c);
    assert(code.subrange(jz + 1, st_at) =~= ops_g);
}

/// The statement `while (c) x = g;` of `main_looping`, from the state `s9`
/// before it.
#[verifier::spinoff_prover]
proof fn lemma_looping_while(
    x: Seq<char>,
    a: Seq<TokenView>,
    c: Seq<TokenView>,
    g: Seq<TokenView>,
    b: Seq<i64>,
    s9: ParseState,
) -> (r: (ParseState, ParseState))
    requires
        spans_expression(
            main_looping(x, a, c, g),
            loop_env(x),
            16 + a.len() + c.len() as int,
            16 + a.len() + c.len() + g.len() as int,
        ),
        value_between(
            main_looping(x, a, c, g),
            loop_env(x),
            b,
            13 + a.len() as int,
            13 + a.len() + c.len() as int,
        ) is Some,
        s9.pos == 11 + a.len(),
        same_tables(s9, loop_env(x)),
        s9.local_offset == 1,
        s9.global_count == 0,
    ensures
        ({
            let toks = main_looping(x, a, c, g);
            let (q1, qg) = r;
            let ops_c = emitted(q1, p_expr(toks, q1)->Ok_0);
            let ops_g = emitted(qg, p_expr(toks, qg)->Ok_0);
            let l = s9.code.len() as int;
            let q5code = s9.code + ops_c + seq![Opcode::Jz(0)] + ops_g + seq![Opcode::St(1)];
            &&& q1.pos == 13 + a.len()
            &&& qg.pos == 16 + a.len() + c.len()
            &&& same_tables(q1, loop_env(x))
            &&& same_tables(qg, loop_env(x))
            &&& ops_c.len() <= c.len()
            &&& ops_g.len() <= g.len()
            &&& p_stmt(toks, s9) matches Ok(sw) && sw.pos == 17 + a.len() + c.len() + g.len()
                && same_tables(sw, loop_env(x)) && sw.code == q5code.push(Opcode::Jmp(l as i64)).update(
                l + ops_c.len(),
                Opcode::Jz((q5code.len() + 1) as i64),
            )
        }),
{
    let toks = main_looping(x, a, c, g);
    let env = loop_env(x);
    let na = a.len() as int;
    let nc = c.len() as int;
    let ng = g.len() as int;
    lemma_looping_tokens(x, a, c, g);
    assert(bottom_of(b, b)) by {
        assert(b.subrange(0, b.len() as int) =~= b);
    }
    let q1 = advance(advance(s9));
    lemma_expr_computes(toks, env, b, q1, b);
    lemma_expr_frame(toks, q1, q1.code);
    let qc = p_expr(toks, q1)->Ok_0;
    assert(qc.pos == 13 + na + nc);
    let ops_c = emitted(q1, qc);
    assert(qc.code =~= s9.code + ops_c);
    let s4 = emit(advance(qc), Opcode::Jz(0));
    let qg = ParseState { pos: s4.pos + 2, ..s4 };
    let canon = ParseState { pos: 16 + na + nc, ..env };
    assert(qg == ParseState { code: s4.code, ..canon });
    lemma_expr_frame(toks, canon, s4.code);
    let sc = p_expr(toks, canon)->Ok_0;
    let sg = ParseState { code: s4.code + emitted(canon, sc), ..sc };
    assert(p_expr(toks, qg) == Ok::<ParseState, Seq<char>>(sg));
    let ops_g = emitted(qg, sg);
    assert(ops_g =~= emitted(canon, sc));
    assert(sg.code =~= s4.code + ops_g);
    assert(variable_offset(sg, x) == Some(1i64));
    lemma_assignment_statement(toks, s4, x, sg);
    let q5 = advance(emit(sg, Opcode::St(1)));
    assert(q5.code =~= s9.code + ops_c + seq![Opcode::Jz(0)] + ops_g + seq![Opcode::St(1)]);
    lemma_while_statement(toks, s9, qc, q5);
    (q1, qg)
}

/// A variable alone before a `;` has the value of its stack entry.
proof fn lemma_variable_alone(
    toks: Seq<TokenView>,
    env: ParseState,
    b: Seq<i64>,
    pos: int,
    x: Seq<char>,
)
    requires
        0 <= pos,
        pos + 1 < toks.len(),
        cur(toks, pos) == TokenView::Ident(x),
        cur(toks, pos + 1) == TokenView::Semicolon,
        variable_offset(env, x) == Some(1i64),
        b.len() == 32,
    ensures
        value_expr(toks, env, b, pos) == Some((b[1], pos + 1)),
{
    assert(crate::evaluation::value_factor(toks, env, b, pos) == Some((b[1], pos + 1)));
    assert(crate::evaluation::value_term_rest(toks, env, b, b[1], pos + 1) == Some((b[1], pos + 1)));
    assert(crate::evaluation::value_term(toks, env, b, pos) == Some((b[1], pos + 1)));
    assert(crate::evaluation::value_additive_rest(toks, env, b, b[1], pos + 1) == Some((b[1], pos + 1)));
    assert(crate::evaluation::value_additive(toks, env, b, pos) == Some((b[1], pos + 1)));
}

/// The state after `int main() {`.
pub open spec fn looping_body_start() -> ParseState {
    ParseState {
        pos: 5,
        code: Seq::empty(),
        globals: Map::empty(),
        locals: Map::empty(),
        local_offset: 0,
        global_count: 0,
    }
}

/// `main_looping` parses where the body of `main` does.
proof fn lemma_looping_program(
    x: Seq<char>,
    a: Seq<TokenView>,
    c: Seq<TokenView>,
    g: Seq<TokenView>,
    send: ParseState,
)
    requires
        p_main_body(main_looping(x, a, c, g), looping_body_start()) == Ok::<ParseState, Seq<char>>(
            send,
        ),
        send.pos == 21 + a.len() + c.len() + g.len(),
    ensures
        parse_tokens(main_looping(x, a, c, g)) == Ok::<Seq<Opcode>, Seq<char>>(send.code),
{
    let toks = main_looping(x, a, c, g);
    lemma_looping_tokens(x, a, c, g);
    reveal_strlit("main");
    let st0 = initial_parse_state();
    let s1 = advance(advance(st0));
    let s3 = advance(advance(s1));
    let s4 = advance(s3);
    assert(s4 == looping_body_start());
    assert(p_expect(toks, advance(s1), TokenView::RParen) == Ok::<ParseState, Seq<char>>(s3));
    assert(p_expect(toks, s3, TokenView::LBrace) == Ok::<ParseState, Seq<char>>(s4));
    assert(p_program(toks, send) == Ok::<ParseState, Seq<char>>(send));
    assert(p_program(toks, st0) == Ok::<ParseState, Seq<char>>(send));
}

/// `int x; x = a;` at the start of the body of `main`.
#[verifier::spinoff_prover]
proof fn lemma_looping_declare(
    x: Seq<char>,
    a: Seq<TokenView>,
    c: Seq<TokenView>,
    g: Seq<TokenView>,
) -> (qa: ParseState)
    requires
        value_between(
            main_looping(x, a, c, g),
            loop_env(x),
            crate::vm::initial_vm_state().stack,
            10,
            10 + a.len() as int,
        ) is Some,
    ensures
        ({
            let toks = main_looping(x, a, c, g);
            let sa = p_expr(toks, qa)->Ok_0;
            let ops_a = emitted(qa, sa);
            let s9 = advance(emit(sa, Opcode::St(1)));
            &&& qa.pos == 10
            &&& same_tables(qa, loop_env(x))
            &&& ops_a.len() <= a.len()
            &&& s9.pos == 11 + a.len()
            &&& same_tables(s9, loop_env(x))
            &&& s9.local_offset == 1
            &&& s9.global_count == 0
            &&& s9.code == ops_a.push(Opcode::St(1))
            &&& p_block_body(toks, looping_body_start()) == p_block_body(toks, s9)
        }),
{
    let toks = main_looping(x, a, c, g);
    let env = loop_env(x);
    lemma_looping_tokens(x, a, c, g);
    let base0 = crate::vm::initial_vm_state().stack;
    assert(bottom_of(base0, base0)) by {
        assert(base0.subrange(0, base0.len() as int) =~= base0);
    }
    let s5 = looping_body_start();
    let d1 = ParseState {
        pos: 7,
        locals: s5.locals.insert(x, SymbolView { name: x, class: SymbolClass::Local, offset: 1 }),
        local_offset: 1,
        ..s5
    };
    let s8 = advance(d1);
    assert(p_stmt(toks, s5) == Ok::<ParseState, Seq<char>>(s8));
    let qa = ParseState { pos: 10, ..s8 };
    lemma_expr_computes(toks, env, base0, qa, base0);
    lemma_expr_frame(toks, qa, qa.code);
    let sa = p_expr(toks, qa)->Ok_0;
    let ops_a = emitted(qa, sa);
    assert(sa.code =~= ops_a);
    assert(variable_offset(sa, x) == Some(1i64));
    lemma_assignment_statement(toks, s8, x, sa);
    let s9 = advance(emit(sa, Opcode::St(1)));
    assert(p_block_body(toks, s8) == p_block_body(toks, s9));
    qa
}

/// `return x; }` after the loop.
proof fn lemma_looping_finish(
    x: Seq<char>,
    a: Seq<TokenView>,
    c: Seq<TokenView>,
    g: Seq<TokenView>,
    b: Seq<i64>,
    sw: ParseState,
) -> (qr: ParseState)
    requires
        sw.pos == 17 + a.len() + c.len() + g.len(),
        same_tables(sw, loop_env(x)),
        b.len() == 32,
    ensures
        ({
            let toks = main_looping(x, a, c, g);
            let ops_r = emitted(qr, p_expr(toks, qr)->Ok_0);
            &&& qr.pos == 18 + a.len() + c.len() + g.len()
            &&& same_tables(qr, loop_env(x))
            &&& ops_r.len() <= 1
            &&& p_block_body(toks, sw) matches Ok(s) && s.pos == 20 + a.len() + c.len() + g.len()
                && s.code == sw.code + ops_r + seq![Opcode::Ret]
        }),
{
    let toks = main_looping(x, a, c, g);
    let env = loop_env(x);
    lemma_looping_tokens(x, a, c, g);
    assert(bottom_of(b, b)) by {
        assert(b.subrange(0, b.len() as int) =~= b);
    }
    let qr = advance(sw);
    lemma_variable_alone(toks, env, b, qr.pos, x);
    lemma_expr_computes(toks, env, b, qr, b);
    let sr = p_expr(toks, qr)->Ok_0;
    let ops_r = emitted(qr, sr);
    let sret = emit(advance(sr), Opcode::Ret);
    assert(p_stmt(toks, sw) == Ok::<ParseState, Seq<char>>(sret));
    assert(p_block_body(toks, sret) == Ok::<ParseState, Seq<char>>(sret));
    assert(p_block_body(toks, sw) == Ok::<ParseState, Seq<char>>(sret));
    assert(sret.code =~= sw.code + ops_r + seq![Opcode::Ret]);
    qr
}

/// `main_looping` parses into `looping_code` of the codes of its four
/// expressions, which start at the states returned.
proof fn lemma_looping_parses(
    x: Seq<char>,
    a: Seq<TokenView>,
    c: Seq<TokenView>,
    g: Seq<TokenView>,
    b: Seq<i64>,
) -> (r: (ParseState, ParseState, ParseState, ParseState))
    requires
        spans_expression(
            main_looping(x, a, c, g),
            loop_env(x),
            16 + a.len() + c.len() as int,
            16 + a.len() + c.len() + g.len() as int,
        ),
        value_between(
            main_looping(x, a, c, g),
            loop_env(x),
            crate::vm::initial_vm_state().stack,
            10,
            10 + a.len() as int,
        ) is Some,
        value_between(
            main_looping(x, a, c, g),
            loop_env(x),
            b,
            13 + a.len() as int,
            13 + a.len() + c.len() as int,
        ) is Some,
        b.len() == 32,
    ensures
        ({
            let toks = main_looping(x, a, c, g);
            let env = loop_env(x);
            let (qa, q1, qg, qr) = r;
            let ops_a = emitted(qa, p_expr(toks, qa)->Ok_0);
            let ops_c = emitted(q1, p_expr(toks, q1)->Ok_0);
            let ops_g = emitted(qg, p_expr(toks, qg)->Ok_0);
            let ops_r = emitted(qr, p_expr(toks, qr)->Ok_0);
            &&& qa.pos == 10
            &&& q1.pos == 13 + a.len()
            &&& qg.pos == 16 + a.len() + c.len()
            &&& qr.pos == 18 + a.len() + c.len() + g.len()
            &&& same_tables(qa, env)
            &&& same_tables(q1, env)
            &&& same_tables(qg, env)
            &&& same_tables(qr, env)
            &&& ops_a.len() <= a.len()
            &&& ops_c.len() <= c.len()
            &&& ops_g.len() <= g.len()
            &&& ops_r.len() <= 1
            &&& parse_tokens(toks) == Ok::<Seq<Opcode>, Seq<char>>(
                looping_code(ops_a, ops_c, ops_g, ops_r),
            )
        }),
{
    let toks = main_looping(x, a, c, g);
    lemma_looping_tokens(x, a, c, g);
    let qa = lemma_looping_declare(x, a, c, g);
    let sa = p_expr(toks, qa)->Ok_0;
    let ops_a = emitted(qa, sa);
    let s9 = advance(emit(sa, Opcode::St(1)));
    let (q1, qg) = lemma_looping_while(x, a, c, g, b, s9);
    let sw = p_stmt(toks, s9)->Ok_0;
    let qr = lemma_looping_finish(x, a, c, g, b, sw);
    let ops_c = emitted(q1, p_expr(toks, q1)->Ok_0);
    let ops_g = emitted(qg, p_expr(toks, qg)->Ok_0);
    let ops_r = emitted(qr, p_expr(toks, qr)->Ok_0);
    let sret = p_block_body(toks, sw)->Ok_0;
    assert(p_block_body(toks, s9) == Ok::<ParseState, Seq<char>>(sret));
    let send = emit(advance(sret), Opcode::Ret);
    assert(p_main_body(toks, looping_body_start()) == Ok::<ParseState, Seq<char>>(send));
    lemma_looping_program(x, a, c, g, send);
    lemma_looping_layout(ops_a, ops_c, ops_g, ops_r);
    assert(s9.code =~= ops_a + seq![Opcode::St(1)]);
    assert(send.code =~= sw.code + ops_r + seq![Opcode::Ret, Opcode::Ret]);
    (qa, q1, qg, qr)
}

proof fn lemma_while_iterate_len(
    toks: Seq<TokenView>,
    env: ParseState,
    slot: int,
    c: int,
    ce: int,
    g: int,
    ge: int,
    base: Seq<i64>,
    fuel: nat,
)
    requires
        0 <= slot < base.len(),
        while_iterate(toks, env, slot, c, ce, g, ge, base, fuel) is Some,
    ensures
        (while_iterate(toks, env, slot, c, ce, g, ge, base, fuel)->0).len() == base.len(),
    decreases fuel,
{
    if fuel > 0 {
        if let Some(vc) = value_between(toks, env, base, c, ce) {
            if vc != 0 {
                if let Some(vg) = value_between(toks, env, base, g, ge) {
                    lemma_while_iterate_len(
                        toks,
                        env,
                        slot,
                        c,
                        ce,
                        g,
                        ge,
                        base.update(slot, vg),
                        (fuel - 1) as nat,
                    );
                }
            }
        }
    }
}

/// A program `int main() { int x; x = a; while (c) x = g; return x; }`
/// whose loop ends returns the value that `x` ends with: `x` first takes
/// the value of `a`, then, as long as the value of `c` is not zero, the value
/// of `g`; where this ends within `fuel` tests of `c` (and the machine's step
/// limit allows `fuel + 1` runs through the tokens' worth of code), the
/// program parses and the machine finishes with `Ok` of the last value of
/// `x`. The expression `g` must be one expression even where the loop never
/// runs its body.
pub proof fn main_loop_returns_its_final_value(
    x: Seq<char>,
    a: Seq<TokenView>,
    c: Seq<TokenView>,
    g: Seq<TokenView>,
    fuel: nat,
)
    requires
        main_looping(x, a, c, g).len() <= parser_capacity(),
        main_looping(x, a, c, g).len() <= usize::MAX,
        spans_expression(
            main_looping(x, a, c, g),
            loop_env(x),
            16 + a.len() + c.len() as int,
            16 + a.len() + c.len() + g.len() as int,
        ),
        loop_result(x, a, c, g, fuel) is Some,
        (fuel + 1) * main_looping(x, a, c, g).len() <= STEP_LIMIT,
    ensures
        parse_tokens(main_looping(x, a, c, g)) matches Ok(code) && program_outcome(code)
            == Outcome::Finished(Ok((loop_result(x, a, c, g, fuel)->0)[1])),
{
    let toks = main_looping(x, a, c, g);
    let env = loop_env(x);
    let na = a.len() as int;
    let nc = c.len() as int;
    let ng = g.len() as int;
    let len = toks.len() as int;
    lemma_looping_tokens(x, a, c, g);
    let base0 = initial_vm_state().stack;
    let va = value_between(toks, env, base0, 10, 10 + na)->0;
    let base1 = base0.update(1, va);
    let (qa, q1, qg, qr) = lemma_looping_parses(x, a, c, g, base1);
    let ops_a = emitted(qa, p_expr(toks, qa)->Ok_0);
    let ops_c = emitted(q1, p_expr(toks, q1)->Ok_0);
    let ops_g = emitted(qg, p_expr(toks, qg)->Ok_0);
    let ops_r = emitted(qr, p_expr(toks, qr)->Ok_0);
    let code = looping_code(ops_a, ops_c, ops_g, ops_r);
    let l = ops_a.len() + 1int;
    let w = ops_c.len() + ops_g.len() + 3int;
    let exit = l + w;
    lemma_looping_layout(ops_a, ops_c, ops_g, ops_r);
    // x = a;
    assert(bottom_of(base0, base0)) by {
        assert(base0.subrange(0, base0.len() as int) =~= base0);
    }
    lemma_expr_computes(toks, env, base0, qa, base0);
    let p = ops_a + seq![Opcode::St(1)];
    lemma_run_ops_append(ops_a, seq![Opcode::St(1)], base0);
    lemma_run_ops_single(Opcode::St(1), base0.push(va));
    assert(base0.push(va).drop_last() =~= base0);
    assert(run_ops(p, base0) == Some(base1));
    // while (c) x = g;
    let fin = loop_result(x, a, c, g, fuel)->0;
    let v = fin[1];
    let rest2 = (ops_r.len() + 1) as nat;
    assert(bottom_of(base1, base1)) by {
        assert(base1.subrange(0, base1.len() as int) =~= base1);
    }
    let (n, t_exit) = lemma_while_runs(
        toks,
        env,
        q1,
        qg,
        13 + na + nc,
        16 + na + nc + ng,
        code,
        l,
        ops_c,
        ops_g,
        1,
        base1,
        base1,
        fuel,
        rest2,
    );
    lemma_vm_runs_straight_line(code, 0, p, base0, n + rest2);
    // return x;
    lemma_while_iterate_len(toks, env, 1, 13 + na, 13 + na + nc, 16 + na + nc, 16 + na + nc + ng, base1, fuel);
    lemma_variable_alone(toks, env, fin, qr.pos, x);
    lemma_expr_computes(toks, env, fin, qr, t_exit);
    lemma_vm_runs_straight_line(code, exit, ops_r, t_exit, 1);
    assert(vm_run(code, VmState { stack: t_exit.push(v), pc: (exit + ops_r.len()) as i64 }, 1)
        == Outcome::Finished(Ok::<i64, Seq<char>>(v)));
    let total = (l + n + rest2) as nat;
    assert(initial_vm_state() == VmState { stack: base0, pc: 0i64 });
    assert(outcome_within(code, total) == Outcome::Finished(Ok::<i64, Seq<char>>(v)));
    assert(fuel * w <= fuel * len) by (nonlinear_arith)
        requires
            w <= len,
            fuel >= 0,
    ;
    assert(total <= (fuel + 1) * len) by (nonlinear_arith)
        requires
            total <= fuel * w + len,
            fuel * w <= fuel * len,
    ;
    more_steps_same_end(code, initial_vm_state(), total, STEP_LIMIT as nat);
}

} // verus!
