//! The value of an arithmetic expression, and the proof that the opcodes the
//! parser emits for an expression compute that value on the machine.
//!
//! An expression's value follows the grammar: `*` and `/` bind tighter than
//! `+` and `-`, operators of one level associate to the left, division
//! rounds toward zero, and a variable has the value of its stack entry.

use vstd::prelude::*;
use crate::lexer::TokenView;
use crate::parser::{
    cur, advance, emit, patch, moved, stayed_or_moved, grew_within, variable_offset, ParseState,
    p_expect, p_expr, p_additive, p_additive_rest, p_term, p_term_rest, p_factor, p_stmt, p_if,
    p_block_body, p_main_body, p_program, parse_tokens, initial_parse_state, parser_capacity,
    undefined_message,
};
use crate::vm::{
    Opcode, VmState, Outcome, vm_run, fits_i64, div_toward_zero, outcome_within,
    program_outcome, initial_vm_state, STEP_LIMIT, more_steps_same_end,
};

verus! {

// ---------------------------------------------------------------------------
// Straight-line code on a stack.
// ---------------------------------------------------------------------------

/// What an opcode without jumps does to a stack; `None` where the machine
/// would stop (an error or an overflow) and for jumps and returns.
pub open spec fn op_effect(op: Opcode, t: Seq<i64>) -> Option<Seq<i64>> {
    let n = t.len();
    match op {
        Opcode::Imm(v) => Some(t.push(v)),
        Opcode::Ld(o) => if (o as usize) < n {
            Some(t.push(t[(o as usize) as int]))
        } else {
            None
        },
        Opcode::St(o) => if n >= 1 && (o as usize) < n - 1 {
            Some(t.drop_last().update((o as usize) as int, t.last()))
        } else {
            None
        },
        Opcode::Add => if n >= 2 && fits_i64(t[n - 2] + t[n - 1]) {
            Some(t.subrange(0, n - 2).push((t[n - 2] + t[n - 1]) as i64))
        } else {
            None
        },
        Opcode::Sub => if n >= 2 && fits_i64(t[n - 2] - t[n - 1]) {
            Some(t.subrange(0, n - 2).push((t[n - 2] - t[n - 1]) as i64))
        } else {
            None
        },
        Opcode::Mul => if n >= 2 && fits_i64(t[n - 2] * t[n - 1]) {
            Some(t.subrange(0, n - 2).push((t[n - 2] * t[n - 1]) as i64))
        } else {
            None
        },
        Opcode::Div => if n >= 2 && t[n - 1] != 0 && fits_i64(
            div_toward_zero(t[n - 2] as int, t[n - 1] as int),
        ) {
            Some(
                t.subrange(0, n - 2).push(div_toward_zero(t[n - 2] as int, t[n - 1] as int) as i64),
            )
        } else {
            None
        },
        _ => None,
    }
}

/// Runs opcodes without jumps, one after the other, on a stack.
pub open spec fn run_ops(ops: Seq<Opcode>, t: Seq<i64>) -> Option<Seq<i64>>
    decreases ops.len(),
{
    if ops.len() == 0 {
        Some(t)
    } else {
        match op_effect(ops[0], t) {
            Some(t1) => run_ops(ops.drop_first(), t1),
            None => None,
        }
    }
}

pub(crate) proof fn lemma_run_ops_single(op: Opcode, t: Seq<i64>)
    ensures
        run_ops(seq![op], t) == op_effect(op, t),
{
    reveal_with_fuel(run_ops, 2);
    assert(seq![op].drop_first() =~= Seq::<Opcode>::empty());
}

pub(crate) proof fn lemma_run_ops_append(a: Seq<Opcode>, b: Seq<Opcode>, t: Seq<i64>)
    ensures
        run_ops(a + b, t) == match run_ops(a, t) {
            Some(t1) => run_ops(b, t1),
            None => None,
        },
    decreases a.len(),
{
    if a.len() == 0 {
        assert(a + b =~= b);
    } else {
        assert((a + b)[0] == a[0]);
        assert((a + b).drop_first() =~= a.drop_first() + b);
        if let Some(t1) = op_effect(a[0], t) {
            lemma_run_ops_append(a.drop_first(), b, t1);
        }
    }
}

/// The machine runs straight-line code as `run_ops` does.
pub(crate) proof fn lemma_vm_runs_straight_line(
    code: Seq<Opcode>,
    pc: int,
    ops: Seq<Opcode>,
    t: Seq<i64>,
    steps: nat,
)
    requires
        0 <= pc,
        pc + ops.len() <= code.len(),
        pc + ops.len() < i64::MAX,
        pc + ops.len() <= usize::MAX,
        code.subrange(pc, pc + ops.len()) == ops,
        run_ops(ops, t) is Some,
    ensures
        vm_run(code, VmState { stack: t, pc: pc as i64 }, steps + ops.len()) == vm_run(
            code,
            VmState { stack: run_ops(ops, t)->0, pc: (pc + ops.len()) as i64 },
            steps,
        ),
    decreases ops.len(),
{
    if ops.len() > 0 {
        let op = ops[0];
        assert(code[pc] == op) by {
            assert(code.subrange(pc, pc + ops.len())[0] == code[pc]);
        }
        let t1 = op_effect(op, t)->0;
        let n = t.len();
        if op is Add || op is Sub || op is Mul || op is Div {
            assert(t.subrange(0, n - 2) =~= t.subrange(0, n - 2));
        }
        assert(code.subrange(pc + 1, pc + ops.len()) =~= ops.drop_first());
        lemma_vm_runs_straight_line(code, pc + 1, ops.drop_first(), t1, steps);
        assert((pc + 1) as i64 == ((pc as i64) + 1) as i64);
    }
}

// ---------------------------------------------------------------------------
// The value of an expression.
// ---------------------------------------------------------------------------

/// The value of a variable: its stack entry in `base`, at the offset that
/// the symbol tables of `env` give it.
pub open spec fn variable_value(env: ParseState, base: Seq<i64>, name: Seq<char>) -> Option<i64> {
    match variable_offset(env, name) {
        Some(o) => if (o as usize) < base.len() {
            Some(base[(o as usize) as int])
        } else {
            None
        },
        None => None,
    }
}

/// The value of the expression at `pos` and the position after it; `None`
/// for an assignment, a syntax error, an unknown variable, a division by zero
/// or a value that is no `i64`.
pub open spec fn value_expr(toks: Seq<TokenView>, env: ParseState, base: Seq<i64>, pos: int) -> Option<
    (i64, int),
>
    decreases toks.len() - pos, 8nat,
{
    value_assignment(toks, env, base, pos)
}

/// The value of an expression without assignment.
pub open spec fn value_assignment(
    toks: Seq<TokenView>,
    env: ParseState,
    base: Seq<i64>,
    pos: int,
) -> Option<(i64, int)>
    decreases toks.len() - pos, 7nat,
{
    match cur(toks, pos) {
        TokenView::Ident(_) => if cur(toks, pos + 1) == TokenView::Assign {
            None
        } else {
            value_additive(toks, env, base, pos)
        },
        _ => value_additive(toks, env, base, pos),
    }
}

/// The value of `term { (+|-) term }`.
pub open spec fn value_additive(toks: Seq<TokenView>, env: ParseState, base: Seq<i64>, pos: int) -> Option<
    (i64, int),
>
    decreases toks.len() - pos, 6nat,
{
    match value_term(toks, env, base, pos) {
        Some((v, p1)) => if pos < p1 <= toks.len() {
            value_additive_rest(toks, env, base, v, p1)
        } else {
            None
        },
        None => None,
    }
}

/// The value of `acc { (+|-) term }`, folding to the left.
pub open spec fn value_additive_rest(
    toks: Seq<TokenView>,
    env: ParseState,
    base: Seq<i64>,
    acc: i64,
    pos: int,
) -> Option<(i64, int)>
    decreases toks.len() - pos, 6nat,
{
    let t = cur(toks, pos);
    if t == TokenView::Plus || t == TokenView::Minus {
        match value_term(toks, env, base, pos + 1) {
            Some((v, p1)) => {
                let r = if t == TokenView::Plus {
                    acc + v
                } else {
                    acc - v
                };
                if fits_i64(r) && pos < p1 <= toks.len() {
                    value_additive_rest(toks, env, base, r as i64, p1)
                } else {
                    None
                }
            },
            None => None,
        }
    } else {
        Some((acc, pos))
    }
}

/// The value of `factor { (*|/) factor }`.
pub open spec fn value_term(toks: Seq<TokenView>, env: ParseState, base: Seq<i64>, pos: int) -> Option<
    (i64, int),
>
    decreases toks.len() - pos, 5nat,
{
    match value_factor(toks, env, base, pos) {
        Some((v, p1)) => if pos < p1 <= toks.len() {
            value_term_rest(toks, env, base, v, p1)
        } else {
            None
        },
        None => None,
    }
}

/// The value of `acc { (*|/) factor }`, folding to the left.
pub open spec fn value_term_rest(
    toks: Seq<TokenView>,
    env: ParseState,
    base: Seq<i64>,
    acc: i64,
    pos: int,
) -> Option<(i64, int)>
    decreases toks.len() - pos, 4nat,
{
    let t = cur(toks, pos);
    if t == TokenView::Mul || t == TokenView::Div {
        match value_factor(toks, env, base, pos + 1) {
            Some((v, p1)) => {
                let ok = if t == TokenView::Mul {
                    fits_i64(acc * v)
                } else {
                    v != 0 && fits_i64(div_toward_zero(acc as int, v as int))
                };
                let r = if t == TokenView::Mul {
                    acc * v
                } else {
                    div_toward_zero(acc as int, v as int)
                };
                if ok && pos < p1 <= toks.len() {
                    value_term_rest(toks, env, base, r as i64, p1)
                } else {
                    None
                }
            },
            None => None,
        }
    } else {
        Some((acc, pos))
    }
}

/// The value of a number, a variable, or a parenthesized expression.
pub open spec fn value_factor(toks: Seq<TokenView>, env: ParseState, base: Seq<i64>, pos: int) -> Option<
    (i64, int),
>
    decreases toks.len() - pos, 3nat,
{
    match cur(toks, pos) {
        TokenView::Num(n) => Some((n, pos + 1)),
        TokenView::Ident(name) => match variable_value(env, base, name) {
            Some(x) => Some((x, pos + 1)),
            None => None,
        },
        TokenView::LParen => match value_expr(toks, env, base, pos + 1) {
            Some((v, p1)) => if cur(toks, p1) == TokenView::RParen {
                Some((v, p1 + 1))
            } else {
                None
            },
            None => None,
        },
        _ => None,
    }
}

// ---------------------------------------------------------------------------
// The code of an expression computes its value.
// ---------------------------------------------------------------------------

/// The opcodes emitted from state `a` to state `b`.
pub open spec fn emitted(a: ParseState, b: ParseState) -> Seq<Opcode> {
    b.code.subrange(a.code.len() as int, b.code.len() as int)
}

/// From `a` to `b` opcodes were only appended and the symbol tables kept.
pub open spec fn appends_code(a: ParseState, b: ParseState) -> bool {
    &&& a.code.len() <= b.code.len()
    &&& b.code.subrange(0, a.code.len() as int) == a.code
    &&& b.globals == a.globals
    &&& b.locals == a.locals
}

/// The symbol tables of `st` are those of `env`.
pub open spec fn same_tables(st: ParseState, env: ParseState) -> bool {
    st.globals == env.globals && st.locals == env.locals
}

/// `base` is the bottom of the stack `t`.
pub open spec fn bottom_of(base: Seq<i64>, t: Seq<i64>) -> bool {
    base.len() <= t.len() && t.subrange(0, base.len() as int) == base
}

pub(crate) proof fn lemma_appends_chain(a: ParseState, b: ParseState, c: ParseState)
    requires
        appends_code(a, b),
        appends_code(b, c),
    ensures
        appends_code(a, c),
        emitted(a, c) == emitted(a, b) + emitted(b, c),
{
    assert(c.code.subrange(0, a.code.len() as int) =~= b.code.subrange(0, a.code.len() as int));
    assert(emitted(a, c) =~= emitted(a, b) + emitted(b, c));
}

pub(crate) proof fn lemma_emit_appends(a: ParseState, op: Opcode)
    ensures
        appends_code(a, emit(a, op)),
        emitted(a, emit(a, op)) == seq![op],
{
    assert(emit(a, op).code.subrange(0, a.code.len() as int) =~= a.code);
    assert(emitted(a, emit(a, op)) =~= seq![op]);
}

pub(crate) proof fn lemma_same_appends(a: ParseState, b: ParseState)
    requires
        b.code == a.code,
        b.globals == a.globals,
        b.locals == a.locals,
    ensures
        appends_code(a, b),
        emitted(a, b) == Seq::<Opcode>::empty(),
{
    assert(b.code.subrange(0, a.code.len() as int) =~= a.code);
    assert(emitted(a, b) =~= Seq::<Opcode>::empty());
}

pub(crate) proof fn lemma_bottom_of_push(base: Seq<i64>, t: Seq<i64>, x: i64)
    requires
        bottom_of(base, t),
    ensures
        bottom_of(base, t.push(x)),
{
    assert(t.push(x).subrange(0, base.len() as int) =~= t.subrange(0, base.len() as int));
}

/// Code of an expression at `st`: it parses, stops where its value stops,
/// only appends opcodes (at most one per token), and pushes the value.
pub open spec fn computes(
    toks: Seq<TokenView>,
    st: ParseState,
    r: Result<ParseState, Seq<char>>,
    value: Option<(i64, int)>,
    t: Seq<i64>,
    before: Seq<i64>,
) -> bool {
    &&& r is Ok
    &&& value is Some
    &&& r->Ok_0.pos == (value->0).1
    &&& appends_code(st, r->Ok_0)
    &&& grew_within(st, r->Ok_0)
    &&& run_ops(emitted(st, r->Ok_0), before) == Some(t.push((value->0).0))
}

proof fn lemma_factor_computes(
    toks: Seq<TokenView>,
    env: ParseState,
    base: Seq<i64>,
    st: ParseState,
    t: Seq<i64>,
)
    requires
        same_tables(st, env),
        bottom_of(base, t),
        value_factor(toks, env, base, st.pos) is Some,
    ensures
        computes(toks, st, p_factor(toks, st), value_factor(toks, env, base, st.pos), t, t),
        moved(toks, st, p_factor(toks, st)->Ok_0),
    decreases toks.len() - st.pos, 3nat,
{
    match cur(toks, st.pos) {
        TokenView::Num(n) => {
            let s0 = advance(st);
            lemma_same_appends(st, s0);
            lemma_emit_appends(s0, Opcode::Imm(n));
            lemma_appends_chain(st, s0, emit(s0, Opcode::Imm(n)));
            lemma_run_ops_single(Opcode::Imm(n), t);
        },
        TokenView::Ident(name) => {
            let o = variable_offset(env, name)->0;
            let s0 = advance(st);
            lemma_same_appends(st, s0);
            lemma_emit_appends(s0, Opcode::Ld(o));
            lemma_appends_chain(st, s0, emit(s0, Opcode::Ld(o)));
            lemma_run_ops_single(Opcode::Ld(o), t);
            assert(t[(o as usize) as int] == base[(o as usize) as int]) by {
                assert(t.subrange(0, base.len() as int)[(o as usize) as int] == t[(o as usize) as int]);
            }
        },
        TokenView::LParen => {
            let s0 = advance(st);
            lemma_same_appends(st, s0);
            lemma_expr_computes(toks, env, base, s0, t);
            let s1 = p_expr(toks, s0)->Ok_0;
            lemma_appends_chain(st, s0, s1);
            let s2 = advance(s1);
            lemma_same_appends(s1, s2);
            lemma_appends_chain(st, s1, s2);
        },
        _ => {},
    }
}

proof fn lemma_term_rest_computes(
    toks: Seq<TokenView>,
    env: ParseState,
    base: Seq<i64>,
    acc: i64,
    st: ParseState,
    t: Seq<i64>,
)
    requires
        same_tables(st, env),
        bottom_of(base, t),
        0 <= st.pos <= toks.len(),
        value_term_rest(toks, env, base, acc, st.pos) is Some,
    ensures
        computes(
            toks,
            st,
            p_term_rest(toks, st),
            value_term_rest(toks, env, base, acc, st.pos),
            t,
            t.push(acc),
        ),
        stayed_or_moved(toks, st, p_term_rest(toks, st)->Ok_0),
    decreases toks.len() - st.pos, 4nat,
{
    let tk = cur(toks, st.pos);
    if tk == TokenView::Mul || tk == TokenView::Div {
        let s0 = advance(st);
        let ta = t.push(acc);
        lemma_bottom_of_push(base, t, acc);
        lemma_same_appends(st, s0);
        lemma_factor_computes(toks, env, base, s0, ta);
        let s1 = p_factor(toks, s0)->Ok_0;
        let (v, p1) = value_factor(toks, env, base, s0.pos)->0;
        lemma_appends_chain(st, s0, s1);
        let op = if tk == TokenView::Mul {
            Opcode::Mul
        } else {
            Opcode::Div
        };
        let s2 = emit(s1, op);
        lemma_emit_appends(s1, op);
        lemma_appends_chain(st, s1, s2);
        let r = if tk == TokenView::Mul {
            acc * v
        } else {
            div_toward_zero(acc as int, v as int)
        };
        let tv = ta.push(v);
        lemma_run_ops_single(op, tv);
        assert(tv.subrange(0, tv.len() - 2) =~= t);
        lemma_run_ops_append(emitted(st, s1), seq![op], t.push(acc));
        lemma_term_rest_computes(toks, env, base, r as i64, s2, t);
        let s3 = p_term_rest(toks, s2)->Ok_0;
        lemma_appends_chain(st, s2, s3);
        lemma_run_ops_append(emitted(st, s2), emitted(s2, s3), t.push(acc));
    } else {
        lemma_same_appends(st, st);
        assert(run_ops(Seq::<Opcode>::empty(), t.push(acc)) == Some(t.push(acc)));
    }
}

proof fn lemma_term_computes(
    toks: Seq<TokenView>,
    env: ParseState,
    base: Seq<i64>,
    st: ParseState,
    t: Seq<i64>,
)
    requires
        same_tables(st, env),
        bottom_of(base, t),
        value_term(toks, env, base, st.pos) is Some,
    ensures
        computes(toks, st, p_term(toks, st), value_term(toks, env, base, st.pos), t, t),
        moved(toks, st, p_term(toks, st)->Ok_0),
    decreases toks.len() - st.pos, 5nat,
{
    lemma_factor_computes(toks, env, base, st, t);
    let s1 = p_factor(toks, st)->Ok_0;
    let (v, p1) = value_factor(toks, env, base, st.pos)->0;
    lemma_term_rest_computes(toks, env, base, v, s1, t);
    let s2 = p_term_rest(toks, s1)->Ok_0;
    lemma_appends_chain(st, s1, s2);
    lemma_run_ops_append(emitted(st, s1), emitted(s1, s2), t);
}

proof fn lemma_additive_rest_computes(
    toks: Seq<TokenView>,
    env: ParseState,
    base: Seq<i64>,
    acc: i64,
    st: ParseState,
    t: Seq<i64>,
)
    requires
        same_tables(st, env),
        bottom_of(base, t),
        0 <= st.pos <= toks.len(),
        value_additive_rest(toks, env, base, acc, st.pos) is Some,
    ensures
        computes(
            toks,
            st,
            p_additive_rest(toks, st),
            value_additive_rest(toks, env, base, acc, st.pos),
            t,
            t.push(acc),
        ),
        stayed_or_moved(toks, st, p_additive_rest(toks, st)->Ok_0),
    decreases toks.len() - st.pos, 6nat,
{
    let tk = cur(toks, st.pos);
    if tk == TokenView::Plus || tk == TokenView::Minus {
        let s0 = advance(st);
        let ta = t.push(acc);
        lemma_bottom_of_push(base, t, acc);
        lemma_same_appends(st, s0);
        lemma_term_computes(toks, env, base, s0, ta);
        let s1 = p_term(toks, s0)->Ok_0;
        let (v, p1) = value_term(toks, env, base, s0.pos)->0;
        lemma_appends_chain(st, s0, s1);
        let op = if tk == TokenView::Plus {
            Opcode::Add
        } else {
            Opcode::Sub
        };
        let s2 = emit(s1, op);
        lemma_emit_appends(s1, op);
        lemma_appends_chain(st, s1, s2);
        let r = if tk == TokenView::Plus {
            acc + v
        } else {
            acc - v
        };
        let tv = ta.push(v);
        lemma_run_ops_single(op, tv);
        assert(tv.subrange(0, tv.len() - 2) =~= t);
        lemma_run_ops_append(emitted(st, s1), seq![op], t.push(acc));
        lemma_additive_rest_computes(toks, env, base, r as i64, s2, t);
        let s3 = p_additive_rest(toks, s2)->Ok_0;
        lemma_appends_chain(st, s2, s3);
        lemma_run_ops_append(emitted(st, s2), emitted(s2, s3), t.push(acc));
    } else {
        lemma_same_appends(st, st);
        assert(run_ops(Seq::<Opcode>::empty(), t.push(acc)) == Some(t.push(acc)));
    }
}

proof fn lemma_additive_computes(
    toks: Seq<TokenView>,
    env: ParseState,
    base: Seq<i64>,
    st: ParseState,
    t: Seq<i64>,
)
    requires
        same_tables(st, env),
        bottom_of(base, t),
        value_additive(toks, env, base, st.pos) is Some,
    ensures
        computes(toks, st, p_additive(toks, st), value_additive(toks, env, base, st.pos), t, t),
        moved(toks, st, p_additive(toks, st)->Ok_0),
    decreases toks.len() - st.pos, 6nat,
{
    lemma_term_computes(toks, env, base, st, t);
    let s1 = p_term(toks, st)->Ok_0;
    let (v, p1) = value_term(toks, env, base, st.pos)->0;
    lemma_additive_rest_computes(toks, env, base, v, s1, t);
    let s2 = p_additive_rest(toks, s1)->Ok_0;
    lemma_appends_chain(st, s1, s2);
    lemma_run_ops_append(emitted(st, s1), emitted(s1, s2), t);
}

pub(crate) proof fn lemma_expr_computes(
    toks: Seq<TokenView>,
    env: ParseState,
    base: Seq<i64>,
    st: ParseState,
    t: Seq<i64>,
)
    requires
        same_tables(st, env),
        bottom_of(base, t),
        value_expr(toks, env, base, st.pos) is Some,
    ensures
        computes(toks, st, p_expr(toks, st), value_expr(toks, env, base, st.pos), t, t),
        moved(toks, st, p_expr(toks, st)->Ok_0),
    decreases toks.len() - st.pos, 8nat,
{
    lemma_additive_computes(toks, env, base, st, t);
}

/// The code emitted for an expression computes its value: where the value
/// of the expression at `st.pos` is defined, the expression parses, the
/// parser stops where the value stops, it only appends opcodes (keeping the
/// symbol tables), and the appended opcodes, run on any stack whose bottom is
/// the variables' stack `base`, push the value.
pub proof fn expression_code_computes_its_value(
    toks: Seq<TokenView>,
    base: Seq<i64>,
    st: ParseState,
    stack: Seq<i64>,
)
    requires
        bottom_of(base, stack),
        value_expr(toks, st, base, st.pos) is Some,
    ensures
        p_expr(toks, st) is Ok,
        p_expr(toks, st)->Ok_0.pos == (value_expr(toks, st, base, st.pos)->0).1,
        appends_code(st, p_expr(toks, st)->Ok_0),
        run_ops(emitted(st, p_expr(toks, st)->Ok_0), stack) == Some(
            stack.push((value_expr(toks, st, base, st.pos)->0).0),
        ),
{
    lemma_expr_computes(toks, st, base, st, stack);
}


/// The tokens of `int main() { return e; }`.
pub open spec fn main_returning(e: Seq<TokenView>) -> Seq<TokenView> {
    seq![
        TokenView::Int,
        TokenView::Ident("main"@),
        TokenView::LParen,
        TokenView::RParen,
        TokenView::LBrace,
        TokenView::Return,
    ] + e + seq![TokenView::Semicolon, TokenView::RBrace, TokenView::EOF]
}

/// A program `int main() { return e; }` whose expression `e` has a value
/// returns that value: it parses, and the machine, run on its code, finishes
/// with `Ok` of the value.
pub proof fn main_returns_value_of_its_expression(e: Seq<TokenView>)
    requires
        main_returning(e).len() <= parser_capacity(),
        main_returning(e).len() <= usize::MAX,
        value_expr(main_returning(e), initial_parse_state(), initial_vm_state().stack, 6) matches Some(
            (v, p),
        ) && p == 6 + e.len(),
    ensures
        parse_tokens(main_returning(e)) matches Ok(code) && program_outcome(code)
            == Outcome::Finished(Ok(
            (value_expr(main_returning(e), initial_parse_state(), initial_vm_state().stack, 6)->0).0,
        )),
{
    let toks = main_returning(e);
    let n = e.len() as int;
    let base = initial_vm_state().stack;
    let v = (value_expr(toks, initial_parse_state(), base, 6)->0).0;
    reveal_strlit("main");
    assert(toks[0] == TokenView::Int);
    assert(toks[1] == TokenView::Ident("main"@));
    assert(toks[2] == TokenView::LParen);
    assert(toks[3] == TokenView::RParen);
    assert(toks[4] == TokenView::LBrace);
    assert(toks[5] == TokenView::Return);
    assert(toks[6 + n] == TokenView::Semicolon);
    assert(toks[7 + n] == TokenView::RBrace);
    assert(toks[8 + n] == TokenView::EOF);
    assert(toks.len() == 9 + n);
    let st0 = initial_parse_state();
    let s1 = advance(advance(st0));
    let s3 = advance(advance(s1));
    let s4 = advance(s3);
    assert(p_expect(toks, advance(s1), TokenView::RParen) == Ok::<ParseState, Seq<char>>(s3));
    assert(p_expect(toks, s3, TokenView::LBrace) == Ok::<ParseState, Seq<char>>(s4));
    let s5 = crate::parser::enter_function(s4);
    let s6 = advance(s5);
    assert(s6.pos == 6);
    assert(same_tables(s6, st0));
    assert(bottom_of(base, base)) by {
        assert(base.subrange(0, base.len() as int) =~= base);
    }
    lemma_expr_computes(toks, st0, base, s6, base);
    let se = p_expr(toks, s6)->Ok_0;
    assert(se.pos == 6 + n);
    let sr = emit(advance(se), Opcode::Ret);
    assert(p_stmt(toks, s5) == Ok::<ParseState, Seq<char>>(sr));
    assert(p_block_body(toks, sr) == Ok::<ParseState, Seq<char>>(sr));
    assert(p_block_body(toks, s5) == Ok::<ParseState, Seq<char>>(sr));
    let s8 = emit(advance(sr), Opcode::Ret);
    assert(p_main_body(toks, s4) == Ok::<ParseState, Seq<char>>(s8));
    assert(p_program(toks, s8) == Ok::<ParseState, Seq<char>>(s8));
    assert(p_program(toks, st0) == Ok::<ParseState, Seq<char>>(s8));
    let code = s8.code;
    let ops = emitted(s6, se);
    assert(s6.code == Seq::<Opcode>::empty());
    assert(se.code =~= ops);
    assert(code =~= ops + seq![Opcode::Ret, Opcode::Ret]);
    assert(ops.len() <= n);
    assert(code.subrange(0, ops.len() as int) =~= ops);
    lemma_vm_runs_straight_line(code, 0, ops, base, 1);
    let after = VmState { stack: base.push(v), pc: ops.len() as i64 };
    assert(code[ops.len() as int] == Opcode::Ret);
    assert(vm_run(code, after, 1) == Outcome::Finished(Ok::<i64, Seq<char>>(v)));
    assert(initial_vm_state() == VmState { stack: base, pc: 0i64 });
    assert(outcome_within(code, 1 + ops.len()) == Outcome::Finished(Ok::<i64, Seq<char>>(v)));
    more_steps_same_end(code, initial_vm_state(), 1 + ops.len(), STEP_LIMIT as nat);
}


/// `int main() { return x; }` with no variable declared is rejected, and
/// the message names `x`.
pub proof fn undeclared_variable_is_rejected(x: Seq<char>)
    ensures
        parse_tokens(main_returning(seq![TokenView::Ident(x)])) == Err::<Seq<Opcode>, Seq<char>>(
            undefined_message(x),
        ),
{
    let e = seq![TokenView::Ident(x)];
    let toks = main_returning(e);
    reveal_strlit("main");
    assert(toks[0] == TokenView::Int);
    assert(toks[1] == TokenView::Ident("main"@));
    assert(toks[2] == TokenView::LParen);
    assert(toks[3] == TokenView::RParen);
    assert(toks[4] == TokenView::LBrace);
    assert(toks[5] == TokenView::Return);
    assert(toks[6] == TokenView::Ident(x));
    assert(toks[7] == TokenView::Semicolon);
    assert(toks.len() == 10);
    let st0 = initial_parse_state();
    let s1 = advance(advance(st0));
    let s3 = advance(advance(s1));
    let s4 = advance(s3);
    let s5 = crate::parser::enter_function(s4);
    let s6 = advance(s5);
    assert(p_factor(toks, s6) == Err::<ParseState, Seq<char>>(undefined_message(x)));
    assert(p_term(toks, s6) == Err::<ParseState, Seq<char>>(undefined_message(x)));
    assert(p_additive(toks, s6) == Err::<ParseState, Seq<char>>(undefined_message(x)));
    assert(p_expr(toks, s6) == Err::<ParseState, Seq<char>>(undefined_message(x)));
    assert(p_stmt(toks, s5) == Err::<ParseState, Seq<char>>(undefined_message(x)));
    assert(p_main_body(toks, s4) == Err::<ParseState, Seq<char>>(undefined_message(x)));
}

/// The tokens of `int main() { if (c) return a; else return b; }`.
pub open spec fn main_choosing(c: Seq<TokenView>, a: Seq<TokenView>, b: Seq<TokenView>) -> Seq<
    TokenView,
> {
    seq![
        TokenView::Int,
        TokenView::Ident("main"@),
        TokenView::LParen,
        TokenView::RParen,
        TokenView::LBrace,
        TokenView::If,
        TokenView::LParen,
    ] + c + seq![TokenView::RParen, TokenView::Return] + a + seq![
        TokenView::Semicolon,
        TokenView::Else,
        TokenView::Return,
    ] + b + seq![TokenView::Semicolon, TokenView::RBrace, TokenView::EOF]
}

/// The value of the expression at `pos`, if it has one and ends at `end`.
pub open spec fn value_ending_at(toks: Seq<TokenView>, pos: nat, end: nat) -> Option<i64> {
    match value_expr(toks, initial_parse_state(), initial_vm_state().stack, pos as int) {
        Some((v, p)) => if p == end {
            Some(v)
        } else {
            None
        },
        None => None,
    }
}

/// The code of `if (c) return a; else return b;` from the codes of its
/// three expressions, starting at index 0.
pub open spec fn if_else_code(ops_c: Seq<Opcode>, ops_a: Seq<Opcode>, ops_b: Seq<Opcode>) -> Seq<
    Opcode,
> {
    let else_at = ops_c.len() + ops_a.len() + 3;
    let end_at = ops_c.len() + ops_a.len() + ops_b.len() + 4;
    ops_c + seq![Opcode::Jz(else_at as i64)] + ops_a + seq![Opcode::Ret, Opcode::Jmp(end_at as i64)]
        + ops_b + seq![Opcode::Ret]
}

proof fn lemma_choosing_tokens(c: Seq<TokenView>, a: Seq<TokenView>, b: Seq<TokenView>)
    ensures
        ({
            let toks = main_choosing(c, a, b);
            let nc = c.len() as int;
            let na = a.len() as int;
            let nb = b.len() as int;
            &&& toks.len() == 15 + nc + na + nb
            &&& toks[0] == TokenView::Int
            &&& toks[1] == TokenView::Ident("main"@)
            &&& toks[2] == TokenView::LParen
            &&& toks[3] == TokenView::RParen
            &&& toks[4] == TokenView::LBrace
            &&& toks[5] == TokenView::If
            &&& toks[6] == TokenView::LParen
            &&& toks[7 + nc] == TokenView::RParen
            &&& toks[8 + nc] == TokenView::Return
            &&& toks[9 + nc + na] == TokenView::Semicolon
            &&& toks[10 + nc + na] == TokenView::Else
            &&& toks[11 + nc + na] == TokenView::Return
            &&& toks[12 + nc + na + nb] == TokenView::Semicolon
            &&& toks[13 + nc + na + nb] == TokenView::RBrace
            &&& toks[14 + nc + na + nb] == TokenView::EOF
        }),
{
}

/// A statement `return e;` whose expression has a value parses into the
/// expression's code followed by `Ret`.
proof fn lemma_return_statement(
    toks: Seq<TokenView>,
    env: ParseState,
    base: Seq<i64>,
    st: ParseState,
    t: Seq<i64>,
) -> (ops: Seq<Opcode>)
    requires
        same_tables(st, env),
        bottom_of(base, t),
        0 <= st.pos,
        cur(toks, st.pos) == TokenView::Return,
        value_expr(toks, env, base, st.pos + 1) matches Some((v, p)) && cur(toks, p)
            == TokenView::Semicolon,
    ensures
        p_stmt(toks, st) matches Ok(s) && s.pos == (value_expr(toks, env, base, st.pos + 1)->0).1 + 1
            && s.code == st.code + ops + seq![Opcode::Ret] && same_tables(s, env),
        ops.len() <= (value_expr(toks, env, base, st.pos + 1)->0).1 - st.pos - 1,
        run_ops(ops, t) == Some(t.push((value_expr(toks, env, base, st.pos + 1)->0).0)),
{
    let s0 = advance(st);
    lemma_expr_computes(toks, env, base, s0, t);
    let se = p_expr(toks, s0)->Ok_0;
    let ops = emitted(s0, se);
    assert(se.code =~= st.code + ops);
    assert(emit(advance(se), Opcode::Ret).code =~= st.code + ops + seq![Opcode::Ret]);
    ops
}

/// `p_if` from the results of its parts, when they all succeed and there is
/// an `else`.
proof fn lemma_if_else_unfolds(
    toks: Seq<TokenView>,
    st: ParseState,
    q1: ParseState,
    qc: ParseState,
    q5: ParseState,
    q9: ParseState,
)
    requires
        p_expect(toks, advance(st), TokenView::LParen) == Ok::<ParseState, Seq<char>>(q1),
        p_expr(toks, q1) == Ok::<ParseState, Seq<char>>(qc),
        cur(toks, qc.pos) == TokenView::RParen,
        moved(toks, st, emit(advance(qc), Opcode::Jz(0))),
        p_stmt(toks, emit(advance(qc), Opcode::Jz(0))) == Ok::<ParseState, Seq<char>>(q5),
        cur(toks, q5.pos) == TokenView::Else,
        ({
            let q7 = emit(advance(q5), Opcode::Jmp(0));
            let q8 = patch(q7, qc.code.len() as int, Opcode::Jz(q7.code.len() as i64));
            &&& moved(toks, st, q8)
            &&& p_stmt(toks, q8) == Ok::<ParseState, Seq<char>>(q9)
        }),
    ensures
        p_if(toks, st) == Ok::<ParseState, Seq<char>>(
            patch(q9, q5.code.len() as int, Opcode::Jmp(q9.code.len() as i64)),
        ),
{
}

/// The shape of `if (c) return a; else return b;` at `pos`, with the
/// values of its three expressions defined.
pub open spec fn if_else_at(toks: Seq<TokenView>, env: ParseState, base: Seq<i64>, pos: int) -> bool {
    &&& 0 <= pos
    &&& cur(toks, pos) == TokenView::If
    &&& cur(toks, pos + 1) == TokenView::LParen
    &&& value_expr(toks, env, base, pos + 2) matches Some((vc, ec)) && {
        &&& cur(toks, ec) == TokenView::RParen
        &&& cur(toks, ec + 1) == TokenView::Return
        &&& value_expr(toks, env, base, ec + 2) matches Some((va, ea)) && {
            &&& cur(toks, ea) == TokenView::Semicolon
            &&& cur(toks, ea + 1) == TokenView::Else
            &&& cur(toks, ea + 2) == TokenView::Return
            &&& value_expr(toks, env, base, ea + 3) matches Some((vb, eb)) && cur(toks, eb)
                == TokenView::Semicolon
        }
    }
}

/// The condition's value and end.
pub open spec fn cond_of(toks: Seq<TokenView>, env: ParseState, base: Seq<i64>, pos: int) -> (i64, int) {
    value_expr(toks, env, base, pos + 2)->0
}

/// The `then` value and end.
pub open spec fn then_of(toks: Seq<TokenView>, env: ParseState, base: Seq<i64>, pos: int) -> (i64, int) {
    value_expr(toks, env, base, cond_of(toks, env, base, pos).1 + 2)->0
}

/// The `else` value and end.
pub open spec fn else_of(toks: Seq<TokenView>, env: ParseState, base: Seq<i64>, pos: int) -> (i64, int) {
    value_expr(toks, env, base, then_of(toks, env, base, pos).1 + 3)->0
}

/// The condition and the `then` branch of an `if` statement.
proof fn lemma_if_then_part(
    toks: Seq<TokenView>,
    env: ParseState,
    base: Seq<i64>,
    s5: ParseState,
) -> (r: (ParseState, ParseState, Seq<Opcode>, Seq<Opcode>))
    requires
        if_else_at(toks, env, base, s5.pos),
        s5.code.len() == 0,
        same_tables(s5, env),
        bottom_of(base, base),
    ensures
        ({
            let vc = cond_of(toks, env, base, s5.pos).0;
            let va = then_of(toks, env, base, s5.pos).0;
            let (q1, qc, ops_c, ops_a) = r;
            &&& p_expect(toks, advance(s5), TokenView::LParen) == Ok::<ParseState, Seq<char>>(q1)
            &&& p_expr(toks, q1) == Ok::<ParseState, Seq<char>>(qc)
            &&& qc.pos == cond_of(toks, env, base, s5.pos).1
            &&& cur(toks, qc.pos) == TokenView::RParen
            &&& qc.code == ops_c
            &&& moved(toks, s5, emit(advance(qc), Opcode::Jz(0)))
            &&& p_stmt(toks, emit(advance(qc), Opcode::Jz(0))) matches Ok(q5) && q5.pos
                == then_of(toks, env, base, s5.pos).1 + 1 && q5.code == ops_c + seq![Opcode::Jz(0)]
                + ops_a + seq![Opcode::Ret] && same_tables(q5, env)
            &&& ops_c.len() <= qc.pos - s5.pos - 2
            &&& ops_a.len() <= then_of(toks, env, base, s5.pos).1 - qc.pos - 2
            &&& run_ops(ops_c, base) == Some(base.push(vc))
            &&& run_ops(ops_a, base.push(vc)) == Some(base.push(vc).push(va))
        }),
{
    let vc = cond_of(toks, env, base, s5.pos).0;
    let q1 = advance(advance(s5));
    lemma_expr_computes(toks, env, base, q1, base);
    let qc = p_expr(toks, q1)->Ok_0;
    let ops_c = emitted(q1, qc);
    assert(qc.code =~= ops_c);
    let q4 = emit(advance(qc), Opcode::Jz(0));
    lemma_bottom_of_push(base, base, vc);
    let ops_a = lemma_return_statement(toks, env, base, q4, base.push(vc));
    (q1, qc, ops_c, ops_a)
}

proof fn lemma_then_layout(ops_c: Seq<Opcode>, ops_a: Seq<Opcode>)
    ensures
        ({
            let kc = ops_c.len() as int;
            let ka = ops_a.len() as int;
            let q7 = (ops_c + seq![Opcode::Jz(0)] + ops_a + seq![Opcode::Ret]).push(Opcode::Jmp(0));
            q7.update(kc, Opcode::Jz(q7.len() as i64)) == ops_c + seq![Opcode::Jz((kc + ka + 3) as i64)]
                + ops_a + seq![Opcode::Ret, Opcode::Jmp(0)]
        }),
{
    let kc = ops_c.len() as int;
    let ka = ops_a.len() as int;
    let q7 = (ops_c + seq![Opcode::Jz(0)] + ops_a + seq![Opcode::Ret]).push(Opcode::Jmp(0));
    assert(q7.update(kc, Opcode::Jz(q7.len() as i64)) =~= ops_c + seq![
        Opcode::Jz((kc + ka + 3) as i64),
    ] + ops_a + seq![Opcode::Ret, Opcode::Jmp(0)]);
}

proof fn lemma_else_layout(ops_c: Seq<Opcode>, ops_a: Seq<Opcode>, ops_b: Seq<Opcode>)
    ensures
        ({
            let kc = ops_c.len() as int;
            let ka = ops_a.len() as int;
            let q8 = ops_c + seq![Opcode::Jz((kc + ka + 3) as i64)] + ops_a + seq![
                Opcode::Ret,
                Opcode::Jmp(0),
            ];
            let q9 = (q8 + ops_b).push(Opcode::Ret);
            q9.update(kc + ka + 2, Opcode::Jmp(q9.len() as i64)) == if_else_code(ops_c, ops_a, ops_b)
        }),
{
    let kc = ops_c.len() as int;
    let ka = ops_a.len() as int;
    let q8 = ops_c + seq![Opcode::Jz((kc + ka + 3) as i64)] + ops_a + seq![
        Opcode::Ret,
        Opcode::Jmp(0),
    ];
    let q9 = (q8 + ops_b).push(Opcode::Ret);
    assert(q9.update(kc + ka + 2, Opcode::Jmp(q9.len() as i64)) =~= if_else_code(ops_c, ops_a, ops_b));
}

/// An `if (c) return a; else return b;` statement whose code starts at
/// index 0 parses into `if_else_code` of its expressions' codes, which
/// compute the expressions' values.
#[verifier::spinoff_prover]
proof fn lemma_if_else_statement(
    toks: Seq<TokenView>,
    env: ParseState,
    base: Seq<i64>,
    s5: ParseState,
) -> (ops: (Seq<Opcode>, Seq<Opcode>, Seq<Opcode>))
    requires
        if_else_at(toks, env, base, s5.pos),
        s5.code.len() == 0,
        same_tables(s5, env),
        bottom_of(base, base),
    ensures
        ({
            let vc = cond_of(toks, env, base, s5.pos).0;
            let va = then_of(toks, env, base, s5.pos).0;
            let vb = else_of(toks, env, base, s5.pos).0;
            &&& p_stmt(toks, s5) matches Ok(s) && s.pos == else_of(toks, env, base, s5.pos).1 + 1
                && s.code == if_else_code(ops.0, ops.1, ops.2) && same_tables(s, env)
            &&& ops.0.len() + ops.1.len() + ops.2.len() <= else_of(toks, env, base, s5.pos).1 + 1 - s5.pos
            &&& run_ops(ops.0, base) == Some(base.push(vc))
            &&& run_ops(ops.1, base.push(vc)) == Some(base.push(vc).push(va))
            &&& run_ops(ops.2, base.push(vc)) == Some(base.push(vc).push(vb))
        }),
{
    let vc = cond_of(toks, env, base, s5.pos).0;
    let (q1, qc, ops_c, ops_a) = lemma_if_then_part(toks, env, base, s5);
    let kc = ops_c.len() as int;
    let ka = ops_a.len() as int;
    let q4 = emit(advance(qc), Opcode::Jz(0));
    let q5 = p_stmt(toks, q4)->Ok_0;
    let q7 = emit(advance(q5), Opcode::Jmp(0));
    let q8 = patch(q7, kc, Opcode::Jz(q7.code.len() as i64));
    lemma_then_layout(ops_c, ops_a);
    lemma_bottom_of_push(base, base, vc);
    let ops_b = lemma_return_statement(toks, env, base, q8, base.push(vc));
    let q9 = p_stmt(toks, q8)->Ok_0;
    lemma_if_else_unfolds(toks, s5, q1, qc, q5, q9);
    lemma_else_layout(ops_c, ops_a, ops_b);
    (ops_c, ops_a, ops_b)
}

/// The machine runs `if_else_code`, followed by any code, to the value of
/// the branch that the condition's value selects.
proof fn lemma_if_else_runs(
    code: Seq<Opcode>,
    ops_c: Seq<Opcode>,
    ops_a: Seq<Opcode>,
    ops_b: Seq<Opcode>,
    base: Seq<i64>,
    vc: i64,
    va: i64,
    vb: i64,
)
    requires
        if_else_code(ops_c, ops_a, ops_b).len() <= code.len(),
        code.subrange(0, if_else_code(ops_c, ops_a, ops_b).len() as int) == if_else_code(
            ops_c,
            ops_a,
            ops_b,
        ),
        code.len() < i64::MAX,
        code.len() <= usize::MAX,
        run_ops(ops_c, base) == Some(base.push(vc)),
        run_ops(ops_a, base.push(vc)) == Some(base.push(vc).push(va)),
        run_ops(ops_b, base.push(vc)) == Some(base.push(vc).push(vb)),
    ensures
        vm_run(code, VmState { stack: base, pc: 0 }, STEP_LIMIT as nat) == Outcome::Finished(
            Ok::<i64, Seq<char>>(
                if vc != 0 {
                    va
                } else {
                    vb
                },
            ),
        ),
{
    let layout = if_else_code(ops_c, ops_a, ops_b);
    let kc = ops_c.len() as int;
    let ka = ops_a.len() as int;
    let kb = ops_b.len() as int;
    let else_at = kc + ka + 3;
    let tc = base.push(vc);
    assert(code.subrange(0, kc) =~= layout.subrange(0, kc));
    assert(layout.subrange(0, kc) =~= ops_c);
    assert(layout[kc] == Opcode::Jz(else_at as i64));
    assert(code[kc] == layout[kc]);
    let start = VmState { stack: base, pc: 0i64 };
    if vc != 0 {
        let total = (kc + 1 + ka + 1) as nat;
        assert(code.subrange(kc + 1, kc + 1 + ka) =~= layout.subrange(kc + 1, kc + 1 + ka));
        assert(layout.subrange(kc + 1, kc + 1 + ka) =~= ops_a);
        assert(layout[kc + 1 + ka] == Opcode::Ret);
        assert(code[kc + 1 + ka] == layout[kc + 1 + ka]);
        lemma_vm_runs_straight_line(code, 0, ops_c, base, (ka + 2) as nat);
        assert(vm_run(code, VmState { stack: tc, pc: kc as i64 }, (ka + 2) as nat) == vm_run(
            code,
            VmState { stack: tc, pc: (kc + 1) as i64 },
            (ka + 1) as nat,
        ));
        lemma_vm_runs_straight_line(code, kc + 1, ops_a, tc, 1);
        assert(vm_run(code, VmState { stack: tc.push(va), pc: (kc + 1 + ka) as i64 }, 1)
            == Outcome::Finished(Ok::<i64, Seq<char>>(va)));
        assert(vm_run(code, start, total) == Outcome::Finished(Ok::<i64, Seq<char>>(va)));
        more_steps_same_end(code, start, total, STEP_LIMIT as nat);
    } else {
        let total = (kc + 1 + kb + 1) as nat;
        assert(code.subrange(else_at, else_at + kb) =~= layout.subrange(else_at, else_at + kb));
        assert(layout.subrange(else_at, else_at + kb) =~= ops_b);
        assert(layout[else_at + kb] == Opcode::Ret);
        assert(code[else_at + kb] == layout[else_at + kb]);
        lemma_vm_runs_straight_line(code, 0, ops_c, base, (kb + 2) as nat);
        assert(vm_run(code, VmState { stack: tc, pc: kc as i64 }, (kb + 2) as nat) == vm_run(
            code,
            VmState { stack: tc, pc: else_at as i64 },
            (kb + 1) as nat,
        ));
        lemma_vm_runs_straight_line(code, else_at, ops_b, tc, 1);
        assert(vm_run(code, VmState { stack: tc.push(vb), pc: (else_at + kb) as i64 }, 1)
            == Outcome::Finished(Ok::<i64, Seq<char>>(vb)));
        assert(vm_run(code, start, total) == Outcome::Finished(Ok::<i64, Seq<char>>(vb)));
        more_steps_same_end(code, start, total, STEP_LIMIT as nat);
    }
}

/// The three expressions of `main_choosing` in terms of `if_else_at`.
proof fn lemma_choosing_shape(c: Seq<TokenView>, a: Seq<TokenView>, b: Seq<TokenView>)
    requires
        value_ending_at(main_choosing(c, a, b), 7, 7 + c.len()) is Some,
        value_ending_at(main_choosing(c, a, b), 9 + c.len(), 9 + c.len() + a.len()) is Some,
        value_ending_at(main_choosing(c, a, b), 12 + c.len() + a.len(), 12 + c.len() + a.len() + b.len())
            is Some,
    ensures
        ({
            let toks = main_choosing(c, a, b);
            let st0 = initial_parse_state();
            let base = initial_vm_state().stack;
            &&& if_else_at(toks, st0, base, 5)
            &&& cond_of(toks, st0, base, 5).0 == value_ending_at(toks, 7, 7 + c.len())->0
            &&& then_of(toks, st0, base, 5).0 == value_ending_at(
                toks,
                9 + c.len(),
                9 + c.len() + a.len(),
            )->0
            &&& else_of(toks, st0, base, 5).0 == value_ending_at(
                toks,
                12 + c.len() + a.len(),
                12 + c.len() + a.len() + b.len(),
            )->0
            &&& else_of(toks, st0, base, 5).1 == 12 + c.len() + a.len() + b.len()
        }),
{
    lemma_choosing_tokens(c, a, b);
}

/// `main_choosing` parses into `if_else_code` followed by `Ret`.
proof fn lemma_choosing_parses(c: Seq<TokenView>, a: Seq<TokenView>, b: Seq<TokenView>) -> (ops: (
    Seq<Opcode>,
    Seq<Opcode>,
    Seq<Opcode>,
))
    requires
        if_else_at(main_choosing(c, a, b), initial_parse_state(), initial_vm_state().stack, 5),
        else_of(main_choosing(c, a, b), initial_parse_state(), initial_vm_state().stack, 5).1 == 12
            + c.len() + a.len() + b.len(),
    ensures
        ({
            let toks = main_choosing(c, a, b);
            let st0 = initial_parse_state();
            let base = initial_vm_state().stack;
            let vc = cond_of(toks, st0, base, 5).0;
            &&& parse_tokens(toks) == Ok::<Seq<Opcode>, Seq<char>>(
                if_else_code(ops.0, ops.1, ops.2).push(Opcode::Ret),
            )
            &&& ops.0.len() + ops.1.len() + ops.2.len() + 7 <= toks.len()
            &&& run_ops(ops.0, base) == Some(base.push(vc))
            &&& run_ops(ops.1, base.push(vc)) == Some(base.push(vc).push(then_of(toks, st0, base, 5).0))
            &&& run_ops(ops.2, base.push(vc)) == Some(base.push(vc).push(else_of(toks, st0, base, 5).0))
        }),
{
    let toks = main_choosing(c, a, b);
    lemma_choosing_tokens(c, a, b);
    reveal_strlit("main");
    let base = initial_vm_state().stack;
    let st0 = initial_parse_state();
    assert(bottom_of(base, base)) by {
        assert(base.subrange(0, base.len() as int) =~= base);
    }
    let s1 = advance(advance(st0));
    let s3 = advance(advance(s1));
    let s4 = advance(s3);
    assert(p_expect(toks, advance(s1), TokenView::RParen) == Ok::<ParseState, Seq<char>>(s3));
    assert(p_expect(toks, s3, TokenView::LBrace) == Ok::<ParseState, Seq<char>>(s4));
    let s5 = crate::parser::enter_function(s4);
    let ops = lemma_if_else_statement(toks, st0, base, s5);
    let q10 = p_stmt(toks, s5)->Ok_0;
    assert(p_block_body(toks, q10) == Ok::<ParseState, Seq<char>>(q10));
    assert(p_block_body(toks, s5) == Ok::<ParseState, Seq<char>>(q10));
    let s8 = emit(advance(q10), Opcode::Ret);
    assert(p_main_body(toks, s4) == Ok::<ParseState, Seq<char>>(s8));
    assert(p_program(toks, s8) == Ok::<ParseState, Seq<char>>(s8));
    assert(p_program(toks, st0) == Ok::<ParseState, Seq<char>>(s8));
    ops
}

/// A program `int main() { if (c) return a; else return b; }` whose three
/// expressions have values returns the value of `a` where `c` is not zero,
/// and the value of `b` where it is.
pub proof fn main_if_else_returns_the_chosen_value(
    c: Seq<TokenView>,
    a: Seq<TokenView>,
    b: Seq<TokenView>,
)
    requires
        main_choosing(c, a, b).len() <= parser_capacity(),
        main_choosing(c, a, b).len() <= usize::MAX,
        value_ending_at(main_choosing(c, a, b), 7, 7 + c.len()) is Some,
        value_ending_at(main_choosing(c, a, b), 9 + c.len(), 9 + c.len() + a.len()) is Some,
        value_ending_at(main_choosing(c, a, b), 12 + c.len() + a.len(), 12 + c.len() + a.len() + b.len())
            is Some,
    ensures
        parse_tokens(main_choosing(c, a, b)) matches Ok(code) && program_outcome(code)
            == Outcome::Finished(
            Ok(
                if value_ending_at(main_choosing(c, a, b), 7, 7 + c.len())->0 != 0 {
                    value_ending_at(main_choosing(c, a, b), 9 + c.len(), 9 + c.len() + a.len())->0
                } else {
                    value_ending_at(
                        main_choosing(c, a, b),
                        12 + c.len() + a.len(),
                        12 + c.len() + a.len() + b.len(),
                    )->0
                },
            ),
        ),
{
    let toks = main_choosing(c, a, b);
    let base = initial_vm_state().stack;
    let st0 = initial_parse_state();
    lemma_choosing_shape(c, a, b);
    let ops = lemma_choosing_parses(c, a, b);
    let code = if_else_code(ops.0, ops.1, ops.2).push(Opcode::Ret);
    assert(code.subrange(0, code.len() - 1) =~= if_else_code(ops.0, ops.1, ops.2));
    assert(initial_vm_state() == VmState { stack: base, pc: 0i64 });
    lemma_if_else_runs(
        code,
        ops.0,
        ops.1,
        ops.2,
        base,
        cond_of(toks, st0, base, 5).0,
        then_of(toks, st0, base, 5).0,
        else_of(toks, st0, base, 5).0,
    );
}


#[verifier::spinoff_prover]
proof fn lemma_precedence_1(env: ParseState, base: Seq<i64>, a: i64, b: i64, c: i64)
    ensures
        fits_i64(b * c) && fits_i64(a + b * c) ==> value_expr(
            seq![
                TokenView::Num(a),
                TokenView::Plus,
                TokenView::Num(b),
                TokenView::Mul,
                TokenView::Num(c),
                TokenView::Semicolon,
            ],
            env,
            base,
            0,
        ) == Some(((a + b * c) as i64, 5int)),
{
    let t1 = seq![
        TokenView::Num(a),
        TokenView::Plus,
        TokenView::Num(b),
        TokenView::Mul,
        TokenView::Num(c),
        TokenView::Semicolon,
    ];
    if fits_i64(b * c) && fits_i64(a + b * c) {
        let bc = (b * c) as i64;
        assert(value_term_rest(t1, env, base, bc, 5) == Some((bc, 5int)));
        assert(value_factor(t1, env, base, 4) == Some((c, 5int)));
        assert(value_term_rest(t1, env, base, b, 3) == Some((bc, 5int)));
        assert(value_factor(t1, env, base, 2) == Some((b, 3int)));
        assert(value_term(t1, env, base, 2) == Some((bc, 5int)));
        let r = (a + bc) as i64;
        assert(value_additive_rest(t1, env, base, r, 5) == Some((r, 5int)));
        assert(value_additive_rest(t1, env, base, a, 1) == Some((r, 5int)));
        assert(value_term_rest(t1, env, base, a, 1) == Some((a, 1int)));
        assert(value_term(t1, env, base, 0) == Some((a, 1int)));
        assert(value_additive(t1, env, base, 0) == Some((r, 5int)));
    }
}

#[verifier::spinoff_prover]
proof fn lemma_precedence_2(env: ParseState, base: Seq<i64>, a: i64, b: i64, c: i64)
    ensures
        fits_i64(a - b) && fits_i64(a - b - c) ==> value_expr(
            seq![
                TokenView::Num(a),
                TokenView::Minus,
                TokenView::Num(b),
                TokenView::Minus,
                TokenView::Num(c),
                TokenView::Semicolon,
            ],
            env,
            base,
            0,
        ) == Some(((a - b - c) as i64, 5int)),
{
    let t2 = seq![
        TokenView::Num(a),
        TokenView::Minus,
        TokenView::Num(b),
        TokenView::Minus,
        TokenView::Num(c),
        TokenView::Semicolon,
    ];
    if fits_i64(a - b) && fits_i64(a - b - c) {
        let ab = (a - b) as i64;
        let r = (a - b - c) as i64;
        assert(value_term_rest(t2, env, base, a, 1) == Some((a, 1int)));
        assert(value_term(t2, env, base, 0) == Some((a, 1int)));
        assert(value_term_rest(t2, env, base, b, 3) == Some((b, 3int)));
        assert(value_term(t2, env, base, 2) == Some((b, 3int)));
        assert(value_term_rest(t2, env, base, c, 5) == Some((c, 5int)));
        assert(value_term(t2, env, base, 4) == Some((c, 5int)));
        assert(value_additive_rest(t2, env, base, r, 5) == Some((r, 5int)));
        assert(value_additive_rest(t2, env, base, ab, 3) == Some((r, 5int)));
        assert(value_additive_rest(t2, env, base, a, 1) == Some((r, 5int)));
        assert(value_additive(t2, env, base, 0) == Some((r, 5int)));
    }
}

#[verifier::spinoff_prover]
proof fn lemma_precedence_3(env: ParseState, base: Seq<i64>, a: i64, b: i64, c: i64)
    ensures
        fits_i64(a + b) && fits_i64((a + b) * c) ==> value_expr(
            seq![
                TokenView::LParen,
                TokenView::Num(a),
                TokenView::Plus,
                TokenView::Num(b),
                TokenView::RParen,
                TokenView::Mul,
                TokenView::Num(c),
                TokenView::Semicolon,
            ],
            env,
            base,
            0,
        ) == Some((((a + b) * c) as i64, 7int)),
{
    let t3 = seq![
        TokenView::LParen,
        TokenView::Num(a),
        TokenView::Plus,
        TokenView::Num(b),
        TokenView::RParen,
        TokenView::Mul,
        TokenView::Num(c),
        TokenView::Semicolon,
    ];
    if fits_i64(a + b) && fits_i64((a + b) * c) {
        let ab = (a + b) as i64;
        let r = ((a + b) * c) as i64;
        assert(value_term_rest(t3, env, base, a, 2) == Some((a, 2int)));
        assert(value_term(t3, env, base, 1) == Some((a, 2int)));
        assert(value_term_rest(t3, env, base, b, 4) == Some((b, 4int)));
        assert(value_term(t3, env, base, 3) == Some((b, 4int)));
        assert(value_additive_rest(t3, env, base, ab, 4) == Some((ab, 4int)));
        assert(value_additive_rest(t3, env, base, a, 2) == Some((ab, 4int)));
        assert(value_additive(t3, env, base, 1) == Some((ab, 4int)));
        assert(value_expr(t3, env, base, 1) == Some((ab, 4int)));
        assert(value_factor(t3, env, base, 0) == Some((ab, 5int)));
        assert(value_term_rest(t3, env, base, r, 7) == Some((r, 7int)));
        assert(value_factor(t3, env, base, 6) == Some((c, 7int)));
        assert(value_term_rest(t3, env, base, ab, 5) == Some((r, 7int)));
        assert(value_term(t3, env, base, 0) == Some((r, 7int)));
        assert(value_additive_rest(t3, env, base, r, 7) == Some((r, 7int)));
        assert(value_additive(t3, env, base, 0) == Some((r, 7int)));
    }
}

/// `*` binds tighter than `+`, and `-` associates to the left: for any
/// numbers `a`, `b`, `c` followed by a `;`, `a + b * c` has the value
/// `a + (b * c)`, `a - b - c` the value `(a - b) - c`, and `( a + b ) * c`
/// the value `(a + b) * c`, where each step is an `i64`.
pub proof fn operators_have_precedence_and_associate_left(
    env: ParseState,
    base: Seq<i64>,
    a: i64,
    b: i64,
    c: i64,
)
    ensures
        fits_i64(b * c) && fits_i64(a + b * c) ==> value_expr(
            seq![
                TokenView::Num(a),
                TokenView::Plus,
                TokenView::Num(b),
                TokenView::Mul,
                TokenView::Num(c),
                TokenView::Semicolon,
            ],
            env,
            base,
            0,
        ) == Some(((a + b * c) as i64, 5int)),
        fits_i64(a - b) && fits_i64(a - b - c) ==> value_expr(
            seq![
                TokenView::Num(a),
                TokenView::Minus,
                TokenView::Num(b),
                TokenView::Minus,
                TokenView::Num(c),
                TokenView::Semicolon,
            ],
            env,
            base,
            0,
        ) == Some(((a - b - c) as i64, 5int)),
        fits_i64(a + b) && fits_i64((a + b) * c) ==> value_expr(
            seq![
                TokenView::LParen,
                TokenView::Num(a),
                TokenView::Plus,
                TokenView::Num(b),
                TokenView::RParen,
                TokenView::Mul,
                TokenView::Num(c),
                TokenView::Semicolon,
            ],
            env,
            base,
            0,
        ) == Some((((a + b) * c) as i64, 7int)),
{
    lemma_precedence_1(env, base, a, b, c);
    lemma_precedence_2(env, base, a, b, c);
    lemma_precedence_3(env, base, a, b, c);
}

} // verus!
