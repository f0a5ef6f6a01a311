//! What every parse step keeps, whatever its outcome: the opcodes emitted
//! before it and the globals.

use vstd::prelude::*;
use crate::parser::{ParseState, emit, patch};
use crate::vm::Opcode;

verus! {

/// From `a` to `b`, whatever the outcome: the opcodes emitted before `a`
/// stay as they were, and the globals are unchanged.
pub open spec fn keeps_earlier(a: ParseState, b: ParseState) -> bool {
    &&& a.code.len() <= b.code.len()
    &&& b.code.subrange(0, a.code.len() as int) == a.code
    &&& b.globals == a.globals
    &&& b.global_count == a.global_count
}

/// From `a` to `b` the opcodes emitted before `a` stay as they were.
pub open spec fn keeps_code(a: ParseState, b: ParseState) -> bool {
    &&& a.code.len() <= b.code.len()
    &&& b.code.subrange(0, a.code.len() as int) == a.code
}

pub broadcast proof fn lemma_keeps_code_trans(a: ParseState, b: ParseState, c: ParseState)
    requires
        #[trigger] keeps_code(a, b),
        #[trigger] keeps_code(b, c),
    ensures
        keeps_code(a, c),
{
    assert(c.code.subrange(0, a.code.len() as int) =~= b.code.subrange(0, a.code.len() as int));
}

pub broadcast proof fn lemma_earlier_keeps_code(a: ParseState, b: ParseState)
    requires
        #[trigger] keeps_earlier(a, b),
    ensures
        keeps_code(a, b),
{
}

pub proof fn lemma_keeps_code_same(a: ParseState, b: ParseState)
    requires
        b.code == a.code,
    ensures
        keeps_code(a, b),
{
    assert(b.code.subrange(0, a.code.len() as int) =~= a.code);
}

pub broadcast proof fn lemma_keeps_earlier_trans(a: ParseState, b: ParseState, c: ParseState)
    requires
        #[trigger] keeps_earlier(a, b),
        #[trigger] keeps_earlier(b, c),
    ensures
        keeps_earlier(a, c),
{
    assert(c.code.subrange(0, a.code.len() as int) =~= b.code.subrange(0, a.code.len() as int));
}

pub proof fn lemma_keeps_earlier_same(a: ParseState, b: ParseState)
    requires
        b.code == a.code,
        b.globals == a.globals,
        b.global_count == a.global_count,
    ensures
        keeps_earlier(a, b),
{
    assert(b.code.subrange(0, a.code.len() as int) =~= a.code);
}

pub proof fn lemma_keeps_earlier_emit(a: ParseState, b: ParseState, op: Opcode)
    requires
        keeps_earlier(a, b),
    ensures
        keeps_earlier(a, emit(b, op)),
{
    assert(emit(b, op).code.subrange(0, a.code.len() as int) =~= b.code.subrange(0, a.code.len() as int));
}

pub proof fn lemma_keeps_earlier_patch(a: ParseState, b: ParseState, i: int, op: Opcode)
    requires
        keeps_earlier(a, b),
        a.code.len() <= i < b.code.len(),
    ensures
        keeps_earlier(a, patch(b, i, op)),
{
    assert(patch(b, i, op).code.subrange(0, a.code.len() as int) =~= b.code.subrange(
        0,
        a.code.len() as int,
    ));
}

} // verus!
