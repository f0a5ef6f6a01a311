//! The virtual machine executes the opcodes generated by the parser.
//!
//! It is a stack machine with integer arithmetic, variable load and store,
//! and jumps. The stack starts with 32 zeros, which hold the variables; a
//! variable's offset is its index in the stack.

use vstd::prelude::*;

verus! {

/// An instruction of the stack machine.
#[derive(Debug, Clone, Copy, PartialEq, Eq, Structural)]
pub enum Opcode {
    /// Push an immediate value onto the stack.
    Imm(i64),
    /// Push the stack entry at an offset.
    Ld(i64),
    /// Pop a value and store it into the stack entry at an offset.
    St(i64),
    /// Replace the top two values by their sum.
    Add,
    /// Replace the top two values by their difference.
    Sub,
    /// Replace the top two values by their product.
    Mul,
    /// Replace the top two values by their quotient.
    Div,
    /// Jump to an opcode index.
    Jmp(i64),
    /// Jump to an opcode index if the top of the stack is zero (without popping it).
    Jz(i64),
    /// Return the top of the stack.
    Ret,
}

/// The state of the machine: its stack and its program counter.
pub struct VmState {
    pub stack: Seq<i64>,
    pub pc: i64,
}

/// What one instruction does.
pub enum Step {
    /// The machine goes on in a new state.
    Continue(VmState),
    /// `Ret` returned a value.
    Return(i64),
    /// The program stopped with an error message.
    Error(Seq<char>),
    /// An `i64` operation overflowed (where `+`, `-`, `*` or `/` on `i64` panics).
    Overflow,
}

/// How a run ends.
pub enum Outcome {
    /// With the program's result: its return value, or an error message.
    Finished(Result<i64, Seq<char>>),
    /// With an `i64` overflow.
    Overflow,
    /// Without an end within the number of steps allowed.
    OutOfSteps,
}

/// The most steps that `execute` runs a program for.
pub const STEP_LIMIT: u64 = 0xffff_ffff_ffff_ffff;

/// The message when a run is cut off by its step limit.
pub open spec fn step_limit_message() -> Seq<char> {
    "Step limit exceeded"@
}

/// Whether the program counter designates an opcode (as `pc as usize`).
pub open spec fn in_code(code: Seq<Opcode>, pc: i64) -> bool {
    (pc as usize) < code.len()
}

/// Whether a mathematical integer is an `i64`.
pub open spec fn fits_i64(v: int) -> bool {
    i64::MIN <= v <= i64::MAX
}

/// Integer division rounding toward zero, as `/` on `i64`.
pub open spec fn div_toward_zero(x: int, d: int) -> int {
    if x == 0 {
        0
    } else if x > 0 && d > 0 {
        x / d
    } else if x < 0 && d < 0 {
        (x * -1) / (d * -1)
    } else if x < 0 {
        ((x * -1) / d) * -1
    } else {
        (x / (d * -1)) * -1
    }
}

/// The state after pushing `v` and moving to the next opcode.
pub open spec fn push_next(stack: Seq<i64>, pc: i64, v: int) -> Step {
    if pc == i64::MAX {
        Step::Overflow
    } else {
        Step::Continue(VmState { stack: stack.push(v as i64), pc: (pc + 1) as i64 })
    }
}

/// Pops two operands `a` (below) and `b` (top) and pushes `f(a, b)`; an
/// arithmetic result that is no `i64` is an overflow.
pub open spec fn binary(stack: Seq<i64>, pc: i64, v: int) -> Step {
    if !fits_i64(v) {
        Step::Overflow
    } else {
        push_next(stack.subrange(0, stack.len() - 2), pc, v)
    }
}

/// What the opcode at `st.pc` does in state `st`.
pub open spec fn vm_step(code: Seq<Opcode>, st: VmState) -> Step
    recommends
        in_code(code, st.pc),
{
    let s = st.stack;
    let n = s.len();
    let pc = st.pc;
    match code[(pc as usize) as int] {
        Opcode::Imm(v) => push_next(s, pc, v as int),
        Opcode::Ld(offset) => {
            if (offset as usize) < n {
                push_next(s, pc, s[(offset as usize) as int] as int)
            } else {
                Step::Error("Invalid local offset in Ld"@)
            }
        },
        Opcode::St(offset) => {
            if n == 0 {
                Step::Error("Stack underflow in St"@)
            } else if (offset as usize) < n - 1 {
                if pc == i64::MAX {
                    Step::Overflow
                } else {
                    Step::Continue(
                        VmState {
                            stack: s.drop_last().update((offset as usize) as int, s.last()),
                            pc: (pc + 1) as i64,
                        },
                    )
                }
            } else {
                Step::Error("Invalid local offset in St"@)
            }
        },
        Opcode::Add => {
            if n < 2 {
                Step::Error("Stack underflow in Add"@)
            } else {
                binary(s, pc, s[n - 2] + s[n - 1])
            }
        },
        Opcode::Sub => {
            if n < 2 {
                Step::Error("Stack underflow in Sub"@)
            } else {
                binary(s, pc, s[n - 2] - s[n - 1])
            }
        },
        Opcode::Mul => {
            if n < 2 {
                Step::Error("Stack underflow in Mul"@)
            } else {
                binary(s, pc, s[n - 2] * s[n - 1])
            }
        },
        Opcode::Div => {
            if n < 2 {
                Step::Error("Stack underflow in Div"@)
            } else if s[n - 1] == 0 {
                Step::Error("Division by zero"@)
            } else {
                binary(s, pc, div_toward_zero(s[n - 2] as int, s[n - 1] as int))
            }
        },
        Opcode::Jmp(addr) => Step::Continue(VmState { stack: s, pc: addr }),
        Opcode::Jz(addr) => {
            if n == 0 {
                Step::Error("Stack underflow in Jz"@)
            } else if s.last() == 0 {
                Step::Continue(VmState { stack: s, pc: addr })
            } else if pc == i64::MAX {
                Step::Overflow
            } else {
                Step::Continue(VmState { stack: s, pc: (pc + 1) as i64 })
            }
        },
        Opcode::Ret => {
            if n == 0 {
                Step::Error("Stack underflow in Ret"@)
            } else {
                Step::Return(s.last())
            }
        },
    }
}

/// Runs the machine from `st` for at most `steps` instructions.
pub open spec fn vm_run(code: Seq<Opcode>, st: VmState, steps: nat) -> Outcome
    decreases steps,
{
    if !in_code(code, st.pc) {
        Outcome::Finished(Err("No Ret opcode encountered"@))
    } else if steps == 0 {
        Outcome::OutOfSteps
    } else {
        match vm_step(code, st) {
            Step::Continue(next) => vm_run(code, next, (steps - 1) as nat),
            Step::Return(v) => Outcome::Finished(Ok(v)),
            Step::Error(e) => Outcome::Finished(Err(e)),
            Step::Overflow => Outcome::Overflow,
        }
    }
}

/// The state a program starts in: 32 zero entries for variables, `pc` 0.
pub open spec fn initial_vm_state() -> VmState {
    VmState { stack: Seq::new(32, |i: int| 0i64), pc: 0 }
}

/// How a program ends when run for at most `steps` instructions.
pub open spec fn outcome_within(code: Seq<Opcode>, steps: nat) -> Outcome {
    vm_run(code, initial_vm_state(), steps)
}

/// How a program ends under `execute`.
pub open spec fn program_outcome(code: Seq<Opcode>) -> Outcome {
    outcome_within(code, STEP_LIMIT as nat)
}

/// A run that ends within some number of steps ends the same way when it is
/// allowed more steps: the step limit only cuts off runs that have not ended.
pub proof fn more_steps_same_end(code: Seq<Opcode>, st: VmState, steps: nat, more: nat)
    requires
        steps <= more,
        !(vm_run(code, st, steps) is OutOfSteps),
    ensures
        vm_run(code, st, more) == vm_run(code, st, steps),
    decreases steps,
{
    if in_code(code, st.pc) && steps > 0 {
        if let Step::Continue(next) = vm_step(code, st) {
            more_steps_same_end(code, next, (steps - 1) as nat, (more - 1) as nat);
        }
    }
}

/// A division whose divisor, on top of the stack, is zero ends the program
/// with the error "Division by zero".
pub proof fn division_by_zero_is_an_error(code: Seq<Opcode>, st: VmState, steps: nat)
    requires
        in_code(code, st.pc),
        code[(st.pc as usize) as int] == Opcode::Div,
        st.stack.len() >= 2,
        st.stack.last() == 0,
        steps > 0,
    ensures
        vm_run(code, st, steps) == Outcome::Finished(Err("Division by zero"@)),
{
}

/// Division rounds toward zero: the remainder `x - q * d` of the quotient
/// `q` is smaller than `d` in size and has the sign of `x` (or is zero).
pub proof fn division_rounds_toward_zero(x: int, d: int)
    requires
        d != 0,
    ensures
        ({
            let q = div_toward_zero(x, d);
            let r = x - q * d;
            &&& -(if d > 0 { d } else { -d }) < r < (if d > 0 { d } else { -d })
            &&& (x >= 0 ==> r >= 0)
            &&& (x <= 0 ==> r <= 0)
        }),
{
    let q = div_toward_zero(x, d);
    if x == 0 {
    } else if x > 0 && d > 0 {
        vstd::arithmetic::div_mod::lemma_fundamental_div_mod(x, d);
        vstd::arithmetic::div_mod::lemma_mod_pos_bound(x, d);
        assert(d * (x / d) == (x / d) * d) by (nonlinear_arith);
    } else if x < 0 && d < 0 {
        let xp = x * -1;
        let dp = d * -1;
        vstd::arithmetic::div_mod::lemma_fundamental_div_mod(xp, dp);
        vstd::arithmetic::div_mod::lemma_mod_pos_bound(xp, dp);
        assert(q * d == -(dp * (xp / dp))) by (nonlinear_arith)
            requires
                q == xp / dp,
                dp == d * -1,
        ;
    } else if x < 0 {
        let xp = x * -1;
        vstd::arithmetic::div_mod::lemma_fundamental_div_mod(xp, d);
        vstd::arithmetic::div_mod::lemma_mod_pos_bound(xp, d);
        assert(q * d == -(d * (xp / d))) by (nonlinear_arith)
            requires
                q == (xp / d) * -1,
        ;
    } else {
        let dp = d * -1;
        vstd::arithmetic::div_mod::lemma_fundamental_div_mod(x, dp);
        vstd::arithmetic::div_mod::lemma_mod_pos_bound(x, dp);
        assert(q * d == dp * (x / dp)) by (nonlinear_arith)
            requires
                q == (x / dp) * -1,
                dp == d * -1,
        ;
    }
}

/// The arithmetic opcodes on two pushed values `a` (below) and `b` (top):
/// `Add`, `Sub` and `Mul` return the sum, difference and product where it is
/// an `i64`, and overflow where not; `Div` by zero is the error "Division by
/// zero", and otherwise returns the quotient rounded toward zero (see
/// `division_rounds_toward_zero`), or overflows where that is no `i64`.
pub proof fn arithmetic_opcodes_compute(a: i64, b: i64)
    ensures
        program_outcome(seq![Opcode::Imm(a), Opcode::Imm(b), Opcode::Add, Opcode::Ret]) == if fits_i64(
            a + b,
        ) {
            Outcome::Finished(Ok((a + b) as i64))
        } else {
            Outcome::Overflow
        },
        program_outcome(seq![Opcode::Imm(a), Opcode::Imm(b), Opcode::Sub, Opcode::Ret]) == if fits_i64(
            a - b,
        ) {
            Outcome::Finished(Ok((a - b) as i64))
        } else {
            Outcome::Overflow
        },
        program_outcome(seq![Opcode::Imm(a), Opcode::Imm(b), Opcode::Mul, Opcode::Ret]) == if fits_i64(
            a * b,
        ) {
            Outcome::Finished(Ok((a * b) as i64))
        } else {
            Outcome::Overflow
        },
        b == 0 ==> program_outcome(seq![Opcode::Imm(a), Opcode::Imm(b), Opcode::Div, Opcode::Ret])
            == Outcome::Finished(Err("Division by zero"@)),
        b != 0 ==> program_outcome(seq![Opcode::Imm(a), Opcode::Imm(b), Opcode::Div, Opcode::Ret])
            == if fits_i64(div_toward_zero(a as int, b as int)) {
            Outcome::Finished(Ok(div_toward_zero(a as int, b as int) as i64))
        } else {
            Outcome::Overflow
        },
{
    let ops = seq![Opcode::Add, Opcode::Sub, Opcode::Mul, Opcode::Div];
    assert forall|k: int| 0 <= k < 4 implies #[trigger] arith_run(a, b, ops[k]) by {
        let op = ops[k];
        let code = seq![Opcode::Imm(a), Opcode::Imm(b), op, Opcode::Ret];
        let st = initial_vm_state();
        let s1 = VmState { stack: st.stack.push(a), pc: 1 };
        let s2 = VmState { stack: s1.stack.push(b), pc: 2 };
        assert(code[0] == Opcode::Imm(a) && code[1] == Opcode::Imm(b) && code[2] == op && code[3]
            == Opcode::Ret);
        assert(vm_step(code, st) == Step::Continue(s1));
        assert(vm_step(code, s1) == Step::Continue(s2));
        let n = s2.stack.len();
        assert(s2.stack[n - 2] == a && s2.stack[n - 1] == b);
        let v = match op {
            Opcode::Add => a + b,
            Opcode::Sub => a - b,
            Opcode::Mul => a * b,
            _ => div_toward_zero(a as int, b as int),
        };
        assert(vm_run(code, st, 4) == vm_run(code, s1, 3));
        assert(vm_run(code, st, 3) == vm_run(code, s1, 2));
        assert(vm_run(code, s1, 3) == vm_run(code, s2, 2));
        assert(vm_run(code, s1, 2) == vm_run(code, s2, 1));
        if op == Opcode::Div && b == 0 {
            assert(vm_step(code, s2) == Step::Error("Division by zero"@));
            assert(vm_run(code, st, 3) == Outcome::Finished(Err::<i64, Seq<char>>("Division by zero"@)));
            more_steps_same_end(code, st, 3, STEP_LIMIT as nat);
        } else if fits_i64(v) {
            let s3 = VmState { stack: s2.stack.subrange(0, n - 2).push(v as i64), pc: 3 };
            assert(vm_step(code, s2) == Step::Continue(s3));
            assert(vm_run(code, s2, 2) == vm_run(code, s3, 1));
            assert(vm_run(code, s3, 1) == Outcome::Finished(Ok::<i64, Seq<char>>(v as i64)));
            assert(vm_run(code, st, 4) == Outcome::Finished(Ok::<i64, Seq<char>>(v as i64)));
            more_steps_same_end(code, st, 4, STEP_LIMIT as nat);
        } else {
            assert(vm_step(code, s2) == Step::Overflow);
            assert(vm_run(code, st, 3) == Outcome::Overflow);
            more_steps_same_end(code, st, 3, STEP_LIMIT as nat);
        }
    }
    assert(arith_run(a, b, ops[0]));
    assert(arith_run(a, b, ops[1]));
    assert(arith_run(a, b, ops[2]));
    assert(arith_run(a, b, ops[3]));
}

/// What `arithmetic_opcodes_compute` states of one operator.
pub open spec fn arith_run(a: i64, b: i64, op: Opcode) -> bool {
    let code = seq![Opcode::Imm(a), Opcode::Imm(b), op, Opcode::Ret];
    let v = match op {
        Opcode::Add => a + b,
        Opcode::Sub => a - b,
        Opcode::Mul => a * b,
        _ => div_toward_zero(a as int, b as int),
    };
    if op == Opcode::Div && b == 0 {
        program_outcome(code) == Outcome::Finished(Err("Division by zero"@))
    } else if fits_i64(v) {
        program_outcome(code) == Outcome::Finished(Ok(v as i64))
    } else {
        program_outcome(code) == Outcome::Overflow
    }
}

/// Jumps and the variable entries: `Jz` jumps where the top of the stack is
/// zero and goes on where not, leaving the value on the stack; `Jmp` always
/// jumps; a value stored into an entry from 0 to 31 loads back.
pub proof fn jumps_and_entries_behave(v: i64, k: i64)
    ensures
        program_outcome(seq![Opcode::Imm(v), Opcode::Jz(3), Opcode::Imm(7), Opcode::Ret])
            == Outcome::Finished(Ok(if v == 0 { 0i64 } else { 7i64 })),
        program_outcome(seq![Opcode::Jmp(2), Opcode::Imm(1), Opcode::Imm(v), Opcode::Ret])
            == Outcome::Finished(Ok(v)),
        0 <= k < 32 ==> program_outcome(
            seq![Opcode::Imm(v), Opcode::St(k), Opcode::Ld(k), Opcode::Ret],
        ) == Outcome::Finished(Ok(v)),
{
    let st = initial_vm_state();
    let z = st.stack;
    // Jz
    let c1 = seq![Opcode::Imm(v), Opcode::Jz(3), Opcode::Imm(7), Opcode::Ret];
    assert(c1[0] == Opcode::Imm(v) && c1[1] == Opcode::Jz(3) && c1[2] == Opcode::Imm(7) && c1[3]
        == Opcode::Ret);
    let a1 = VmState { stack: z.push(v), pc: 1 };
    assert(vm_step(c1, st) == Step::Continue(a1));
    assert(vm_run(c1, st, 4) == vm_run(c1, a1, 3));
    if v == 0 {
        let a2 = VmState { stack: z.push(v), pc: 3 };
        assert(vm_step(c1, a1) == Step::Continue(a2));
        assert(vm_run(c1, a1, 3) == vm_run(c1, a2, 2));
        assert(vm_run(c1, a2, 2) == Outcome::Finished(Ok::<i64, Seq<char>>(0)));
    } else {
        let a2 = VmState { stack: z.push(v), pc: 2 };
        let a3 = VmState { stack: z.push(v).push(7), pc: 3 };
        assert(vm_step(c1, a1) == Step::Continue(a2));
        assert(vm_run(c1, a1, 3) == vm_run(c1, a2, 2));
        assert(vm_step(c1, a2) == Step::Continue(a3));
        assert(vm_run(c1, a2, 2) == vm_run(c1, a3, 1));
        assert(vm_run(c1, a3, 1) == Outcome::Finished(Ok::<i64, Seq<char>>(7)));
    }
    more_steps_same_end(c1, st, 4, STEP_LIMIT as nat);
    // Jmp
    let c2 = seq![Opcode::Jmp(2), Opcode::Imm(1), Opcode::Imm(v), Opcode::Ret];
    assert(c2[0] == Opcode::Jmp(2) && c2[2] == Opcode::Imm(v) && c2[3] == Opcode::Ret);
    let b1 = VmState { stack: z, pc: 2 };
    let b2 = VmState { stack: z.push(v), pc: 3 };
    assert(vm_step(c2, st) == Step::Continue(b1));
    assert(vm_step(c2, b1) == Step::Continue(b2));
    assert(vm_run(c2, st, 3) == vm_run(c2, b1, 2));
    assert(vm_run(c2, b1, 2) == vm_run(c2, b2, 1));
    assert(vm_run(c2, b2, 1) == Outcome::Finished(Ok::<i64, Seq<char>>(v)));
    more_steps_same_end(c2, st, 3, STEP_LIMIT as nat);
    // St then Ld
    if 0 <= k < 32 {
        let c3 = seq![Opcode::Imm(v), Opcode::St(k), Opcode::Ld(k), Opcode::Ret];
        assert(c3[0] == Opcode::Imm(v) && c3[1] == Opcode::St(k) && c3[2] == Opcode::Ld(k) && c3[3]
            == Opcode::Ret);
        let d1 = VmState { stack: z.push(v), pc: 1 };
        let zs = z.update(k as int, v);
        assert(z.push(v).drop_last() =~= z);
        let d2 = VmState { stack: zs, pc: 2 };
        let d3 = VmState { stack: zs.push(v), pc: 3 };
        assert(vm_step(c3, st) == Step::Continue(d1));
        assert(vm_step(c3, d1) == Step::Continue(d2));
        assert(vm_step(c3, d2) == Step::Continue(d3));
        assert(vm_run(c3, st, 4) == vm_run(c3, d1, 3));
        assert(vm_run(c3, d1, 3) == vm_run(c3, d2, 2));
        assert(vm_run(c3, d2, 2) == vm_run(c3, d3, 1));
        assert(vm_run(c3, d3, 1) == Outcome::Finished(Ok::<i64, Seq<char>>(v)));
        more_steps_same_end(c3, st, 4, STEP_LIMIT as nat);
    }
}

/// The machine starts with exactly 32 entries, all zero: loading any entry
/// from 0 to 31 and returning it gives 0, and loading an entry from 32 on
/// is an invalid offset.
pub proof fn the_machine_starts_with_32_zero_entries(k: i64)
    ensures
        0 <= k < 32 ==> program_outcome(seq![Opcode::Ld(k), Opcode::Ret]) == Outcome::Finished(
            Ok(0),
        ),
        32 <= k <= usize::MAX ==> program_outcome(seq![Opcode::Ld(k), Opcode::Ret])
            == Outcome::Finished(Err("Invalid local offset in Ld"@)),
{
    let code = seq![Opcode::Ld(k), Opcode::Ret];
    let st = initial_vm_state();
    assert(code[0] == Opcode::Ld(k));
    assert(code[1] == Opcode::Ret);
    if 0 <= k < 32 {
        let next = VmState { stack: st.stack.push(0), pc: 1 };
        assert(vm_step(code, st) == Step::Continue(next));
        assert(vm_run(code, next, 1) == Outcome::Finished(Ok::<i64, Seq<char>>(0)));
        assert(vm_run(code, st, 2) == Outcome::Finished(Ok::<i64, Seq<char>>(0)));
        more_steps_same_end(code, st, 2, STEP_LIMIT as nat);
    } else if 32 <= k <= usize::MAX {
        assert(vm_run(code, st, 1) == Outcome::Finished(Err::<i64, Seq<char>>(
            "Invalid local offset in Ld"@,
        )));
        more_steps_same_end(code, st, 1, STEP_LIMIT as nat);
    }
}

/// The message of a run that leaves the code without a `Ret`.
pub open spec fn no_ret_message() -> Seq<char> {
    "No Ret opcode encountered"@
}

/// A run that does not leave its code ends the same way with any code
/// appended after it: run from `st` for `steps` steps, a run on `code` whose
/// outcome is not the error of running off the end of the code has the same
/// outcome on `code + extra`; so has the whole program under `execute`'s
/// step limit.
pub proof fn appended_code_is_never_reached(
    code: Seq<Opcode>,
    extra: Seq<Opcode>,
    st: VmState,
    steps: nat,
)
    ensures
        vm_run(code, st, steps) != Outcome::Finished(Err(no_ret_message())) ==> vm_run(
            code + extra,
            st,
            steps,
        ) == vm_run(code, st, steps),
        program_outcome(code) != Outcome::Finished(Err(no_ret_message())) ==> program_outcome(
            code + extra,
        ) == program_outcome(code),
    decreases steps,
{
    lemma_appended_run(code, extra, st, steps);
    lemma_appended_run(code, extra, initial_vm_state(), STEP_LIMIT as nat);
}

proof fn lemma_appended_run(code: Seq<Opcode>, extra: Seq<Opcode>, st: VmState, steps: nat)
    ensures
        vm_run(code, st, steps) != Outcome::Finished(Err(no_ret_message())) ==> vm_run(
            code + extra,
            st,
            steps,
        ) == vm_run(code, st, steps),
    decreases steps,
{
    if in_code(code, st.pc) {
        assert((code + extra)[(st.pc as usize) as int] == code[(st.pc as usize) as int]);
        assert(vm_step(code + extra, st) == vm_step(code, st));
        if steps > 0 {
            if let Step::Continue(next) = vm_step(code, st) {
                lemma_appended_run(code, extra, next, (steps - 1) as nat);
            }
        }
    }
}

/// What `run` returns for an outcome.
pub open spec fn run_result_matches(r: Option<Result<i64, String>>, o: Outcome) -> bool {
    match o {
        Outcome::Finished(Ok(v)) => r == Some(Ok::<i64, String>(v)),
        Outcome::Finished(Err(e)) => r matches Some(Err(m)) && m@ == e,
        Outcome::OutOfSteps => r matches Some(Err(m)) && m@ == step_limit_message(),
        Outcome::Overflow => r is None,
    }
}

fn err(msg: &str) -> (r: Option<Result<i64, String>>)
    ensures
        r matches Some(Err(m)) && m@ == msg@,
{
    Some(Err(String::from_str(msg)))
}

/// Runs a program for at most `max_steps` instructions.
///
/// Returns `None` where the program overflows `i64` arithmetic (where
/// `execute` would panic), else the program's result: the value of its first
/// `Ret`, the message of the first runtime error, or a step-limit error.
pub fn run(opcodes: &[Opcode], max_steps: u64) -> (r: Option<Result<i64, String>>)
    ensures
        run_result_matches(r, outcome_within(opcodes@, max_steps as nat)),
{
    let mut stack: Vec<i64> = Vec::new();
    let mut k: usize = 0;
    while k < 32
        invariant
            k <= 32,
            stack@ == Seq::new(k as nat, |i: int| 0i64),
        decreases 32 - k,
    {
        stack.push(0);
        k += 1;
        assert(stack@ =~= Seq::new(k as nat, |i: int| 0i64));
    }
    let ghost code = opcodes@;
    let mut pc: i64 = 0;
    let mut steps: u64 = max_steps;
    while (pc as usize) < opcodes.len()
        invariant
            code == opcodes@,
            vm_run(code, VmState { stack: stack@, pc }, steps as nat) == outcome_within(
                code,
                max_steps as nat,
            ),
        decreases steps,
    {
        if steps == 0 {
            return err("Step limit exceeded");
        }
        steps -= 1;
        let n = stack.len();
        match opcodes[pc as usize] {
            Opcode::Imm(v) => {
                if pc == i64::MAX {
                    return None;
                }
                stack.push(v);
                pc += 1;
            },
            Opcode::Ld(offset) => {
                if (offset as usize) < n {
                    let v = stack[offset as usize];
                    if pc == i64::MAX {
                        return None;
                    }
                    stack.push(v);
                    pc += 1;
                } else {
                    return err("Invalid local offset in Ld");
                }
            },
            Opcode::St(offset) => {
                if let Some(v) = stack.pop() {
                    if (offset as usize) < stack.len() {
                        if pc == i64::MAX {
                            return None;
                        }
                        stack.set(offset as usize, v);
                        pc += 1;
                    } else {
                        return err("Invalid local offset in St");
                    }
                } else {
                    return err("Stack underflow in St");
                }
            },
            Opcode::Add | Opcode::Sub | Opcode::Mul | Opcode::Div => {
                let op = opcodes[pc as usize];
                if n < 2 {
                    return match op {
                        Opcode::Add => err("Stack underflow in Add"),
                        Opcode::Sub => err("Stack underflow in Sub"),
                        Opcode::Mul => err("Stack underflow in Mul"),
                        _ => err("Stack underflow in Div"),
                    };
                }
                let ghost before = stack@;
                let b = stack.pop().unwrap();
                if b == 0 && op == Opcode::Div {
                    return err("Division by zero");
                }
                let a = stack.pop().unwrap();
                assert(stack@ =~= before.subrange(0, before.len() - 2));
                let value = match op {
                    Opcode::Add => a.checked_add(b),
                    Opcode::Sub => a.checked_sub(b),
                    Opcode::Mul => a.checked_mul(b),
                    _ => a.checked_div(b),
                };
                match value {
                    Some(v) => {
                        if pc == i64::MAX {
                            return None;
                        }
                        stack.push(v);
                        pc += 1;
                    },
                    None => {
                        return None;
                    },
                }
            },
            Opcode::Jmp(addr) => {
                pc = addr;
            },
            Opcode::Jz(addr) => {
                if n == 0 {
                    return err("Stack underflow in Jz");
                }
                let top = stack[n - 1];
                if top == 0 {
                    pc = addr;
                } else {
                    if pc == i64::MAX {
                        return None;
                    }
                    pc += 1;
                }
            },
            Opcode::Ret => {
                if let Some(result) = stack.pop() {
                    return Some(Ok(result));
                } else {
                    return err("Stack underflow in Ret");
                }
            },
        }
    }
    err("No Ret opcode encountered")
}

/// Runs a program for at most `STEP_LIMIT` instructions, as `execute` does;
/// `None` where the program overflows `i64` arithmetic.
pub fn execute_checked(opcodes: &[Opcode]) -> (r: Option<Result<i64, String>>)
    ensures
        run_result_matches(r, program_outcome(opcodes@)),
{
    run(opcodes, STEP_LIMIT)
}

/// Executes a sequence of opcodes and returns the final result: the value
/// returned by the first `Ret`, or the message of the first runtime error
/// (a stack underflow, an invalid offset, a division by zero, running off the
/// end of the code, or, after `STEP_LIMIT` instructions, the step limit).
///
/// Programs whose arithmetic overflows `i64` are left out.
pub fn execute(opcodes: Vec<Opcode>) -> (r: Result<i64, String>)
    requires
        !(program_outcome(opcodes@) is Overflow),
    ensures
        run_result_matches(Some(r), program_outcome(opcodes@)),
{
    match execute_checked(opcodes.as_slice()) {
        Some(r) => r,
        None => {
            proof {
                assert(false);
            }
            Ok(0)
        },
    }
}

} // verus!
