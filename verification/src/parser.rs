//! The parser is a recursive descent parser for a subset of C.
//!
//! It accepts global variable declarations and function definitions of
//! `main`, whose bodies hold local declarations, expression statements,
//! `if`–`else`, `while`, blocks and `return`. Expressions are assignments
//! and the four arithmetic operators with the usual precedence. It keeps a
//! symbol table of global and local variables and emits opcodes for the
//! stack machine of `crate::vm`.

use vstd::prelude::*;
use crate::lexer::{Token, TokenView, tokens_view, token_text, push_token_text, same_token};
use crate::vm::Opcode;
use crate::earlier::{
    keeps_earlier, keeps_code, lemma_keeps_code_same, lemma_keeps_earlier_same, lemma_keeps_earlier_emit, lemma_keeps_earlier_patch,
};

verus! {

pub type ParseResult = Result<Vec<Opcode>, String>;

/// The kind of a symbol.
#[derive(Debug, Clone, Copy, PartialEq, Eq, Structural)]
pub enum SymbolClass {
    Global,
    Local,
    Function,
}

/// A variable of the symbol table.
#[derive(Debug, Clone)]
pub struct Symbol {
    pub name: String,
    pub class: SymbolClass,
    /// The variable's stack entry: see `global_entry` for globals; locals from 1 on.
    pub offset: i64,
}

/// The value of a symbol, its name as a sequence of characters.
pub struct SymbolView {
    pub name: Seq<char>,
    pub class: SymbolClass,
    pub offset: i64,
}

impl View for Symbol {
    type V = SymbolView;

    open spec fn view(&self) -> SymbolView {
        SymbolView { name: self.name@, class: self.class, offset: self.offset }
    }
}

// ---------------------------------------------------------------------------
// Symbol tables: a vector of symbols with distinct names, read as a map from
// names to symbols.
// ---------------------------------------------------------------------------

/// The map of a list of symbols, later entries overriding earlier ones.
pub open spec fn symbols_map(e: Seq<SymbolView>) -> Map<Seq<char>, SymbolView>
    decreases e.len(),
{
    if e.len() == 0 {
        Map::empty()
    } else {
        symbols_map(e.drop_last()).insert(e.last().name, e.last())
    }
}

/// No name occurs twice.
pub open spec fn names_unique(e: Seq<SymbolView>) -> bool {
    forall|i: int, j: int| 0 <= i < j < e.len() ==> e[i].name != e[j].name
}

proof fn lemma_symbols_map_domain(e: Seq<SymbolView>, k: Seq<char>)
    ensures
        symbols_map(e).contains_key(k) <==> exists|i: int| 0 <= i < e.len() && e[i].name == k,
    decreases e.len(),
{
    if e.len() > 0 {
        lemma_symbols_map_domain(e.drop_last(), k);
        if symbols_map(e).contains_key(k) && e.last().name != k {
            let i = choose|i: int| 0 <= i < e.len() - 1 && e.drop_last()[i].name == k;
            assert(e[i].name == k);
        }
        if exists|i: int| 0 <= i < e.len() && e[i].name == k {
            let i = choose|i: int| 0 <= i < e.len() && e[i].name == k;
            if i < e.len() - 1 {
                assert(e.drop_last()[i].name == k);
            }
        }
    }
}

proof fn lemma_symbols_map_at(e: Seq<SymbolView>, i: int)
    requires
        names_unique(e),
        0 <= i < e.len(),
    ensures
        symbols_map(e).contains_key(e[i].name),
        symbols_map(e)[e[i].name] == e[i],
    decreases e.len(),
{
    if i < e.len() - 1 {
        let d = e.drop_last();
        assert(names_unique(d));
        lemma_symbols_map_at(d, i);
        assert(d[i] == e[i]);
    }
}

proof fn lemma_symbols_map_update(e: Seq<SymbolView>, i: int, v: SymbolView)
    requires
        names_unique(e),
        0 <= i < e.len(),
        e[i].name == v.name,
    ensures
        names_unique(e.update(i, v)),
        symbols_map(e.update(i, v)) == symbols_map(e).insert(v.name, v),
    decreases e.len(),
{
    let u = e.update(i, v);
    assert(names_unique(u)) by {
        assert forall|a: int, b: int| 0 <= a < b < u.len() implies u[a].name != u[b].name by {
            assert(e[a].name != e[b].name);
        }
    }
    if i == e.len() - 1 {
        assert(u.drop_last() =~= e.drop_last());
        assert(symbols_map(u) =~= symbols_map(e).insert(v.name, v));
    } else {
        let d = e.drop_last();
        assert(names_unique(d));
        lemma_symbols_map_update(d, i, v);
        assert(u.drop_last() =~= d.update(i, v));
        assert(e.last().name != v.name);
        assert(symbols_map(u) =~= symbols_map(e).insert(v.name, v));
    }
}

/// A symbol table: symbols with distinct names.
struct SymbolTable {
    entries: Vec<Symbol>,
}

impl SymbolTable {
    spec fn entries_view(&self) -> Seq<SymbolView> {
        self.entries@.map_values(|s: Symbol| s@)
    }

    spec fn wf(&self) -> bool {
        names_unique(self.entries_view())
    }

    spec fn map(&self) -> Map<Seq<char>, SymbolView> {
        symbols_map(self.entries_view())
    }

    fn new() -> (t: SymbolTable)
        ensures
            t.wf(),
            t.map() == Map::<Seq<char>, SymbolView>::empty(),
    {
        let t = SymbolTable { entries: Vec::new() };
        assert(t.entries_view() =~= Seq::<SymbolView>::empty());
        t
    }

    fn clear(&mut self)
        ensures
            final(self).wf(),
            final(self).map() == Map::<Seq<char>, SymbolView>::empty(),
    {
        self.entries.clear();
        assert(self.entries_view() =~= Seq::<SymbolView>::empty());
    }

    /// The index of the symbol named `name`.
    fn find(&self, name: &String) -> (r: Option<usize>)
        ensures
            r matches Some(i) ==> i < self.entries_view().len() && self.entries_view()[i as int].name
                == name@,
            r is None ==> forall|i: int|
                0 <= i < self.entries_view().len() ==> self.entries_view()[i].name != name@,
    {
        let mut i: usize = 0;
        while i < self.entries.len()
            invariant
                i <= self.entries@.len(),
                forall|k: int| 0 <= k < i ==> self.entries_view()[k].name != name@,
            decreases self.entries@.len() - i,
        {
            if self.entries[i].name.eq(name) {
                return Some(i);
            }
            i += 1;
        }
        None
    }

    /// The offset of the symbol named `name`, if there is one.
    fn offset_of(&self, name: &String) -> (r: Option<i64>)
        requires
            self.wf(),
        ensures
            r == (if self.map().contains_key(name@) {
                Some(self.map()[name@].offset)
            } else {
                None::<i64>
            }),
    {
        proof {
            lemma_symbols_map_domain(self.entries_view(), name@);
        }
        match self.find(name) {
            Some(i) => {
                proof {
                    lemma_symbols_map_at(self.entries_view(), i as int);
                }
                Some(self.entries[i].offset)
            },
            None => None,
        }
    }

    /// Inserts a symbol, replacing the one of the same name.
    fn insert(&mut self, sym: Symbol)
        requires
            old(self).wf(),
        ensures
            final(self).wf(),
            final(self).map() == old(self).map().insert(sym.name@, sym@),
    {
        let ghost e = self.entries_view();
        let ghost v = sym@;
        match self.find(&sym.name) {
            Some(i) => {
                self.entries.set(i, sym);
                proof {
                    assert(self.entries_view() =~= e.update(i as int, v));
                    lemma_symbols_map_update(e, i as int, v);
                }
            },
            None => {
                self.entries.push(sym);
                proof {
                    assert(self.entries_view() =~= e.push(v));
                    assert(self.entries_view().drop_last() =~= e);
                }
            },
        }
    }
}

// ---------------------------------------------------------------------------
// What the parser computes.
// ---------------------------------------------------------------------------

/// The state of the parser between tokens: the position in the token
/// sequence, the opcodes emitted so far, the symbol tables, the last local
/// offset handed out and the number of global declarations so far.
pub struct ParseState {
    pub pos: int,
    pub code: Seq<Opcode>,
    pub globals: Map<Seq<char>, SymbolView>,
    pub locals: Map<Seq<char>, SymbolView>,
    pub local_offset: i64,
    pub global_count: i64,
}

/// The token sequence of a parser and its state.
pub struct ParserView {
    pub tokens: Seq<TokenView>,
    pub state: ParseState,
}

/// The token at `pos`; past the end, `EOF`.
pub open spec fn cur(toks: Seq<TokenView>, pos: int) -> TokenView {
    if 0 <= pos < toks.len() {
        toks[pos]
    } else {
        TokenView::EOF
    }
}

/// The state after consuming one token.
pub open spec fn advance(st: ParseState) -> ParseState {
    ParseState { pos: st.pos + 1, ..st }
}

/// The state after emitting an opcode.
pub open spec fn emit(st: ParseState, op: Opcode) -> ParseState {
    ParseState { code: st.code.push(op), ..st }
}

/// The state after replacing the opcode at index `at`.
pub open spec fn patch(st: ParseState, at: int, op: Opcode) -> ParseState {
    ParseState { code: st.code.update(at, op), ..st }
}

/// Whether `b` lies strictly after `a`, within the tokens.
pub open spec fn moved(toks: Seq<TokenView>, a: ParseState, b: ParseState) -> bool {
    a.pos < b.pos <= toks.len()
}

/// Whether `b` lies at or after `a`, within the tokens.
pub open spec fn stayed_or_moved(toks: Seq<TokenView>, a: ParseState, b: ParseState) -> bool {
    a.pos <= b.pos <= toks.len()
}

/// The message of a token that is not the one expected.
pub open spec fn expected_message(want: TokenView, found: TokenView) -> Seq<char> {
    "Expected "@ + token_text(want) + ", found "@ + token_text(found)
}

/// Consumes the token `want`, or fails.
pub open spec fn p_expect(toks: Seq<TokenView>, st: ParseState, want: TokenView) -> Result<
    ParseState,
    Seq<char>,
> {
    if cur(toks, st.pos) == want {
        Ok(advance(st))
    } else {
        Err(expected_message(want, cur(toks, st.pos)))
    }
}

/// The offset of a variable: a local first, else a global.
pub open spec fn variable_offset(st: ParseState, name: Seq<char>) -> Option<i64> {
    if st.locals.contains_key(name) {
        Some(st.locals[name].offset)
    } else if st.globals.contains_key(name) {
        Some(st.globals[name].offset)
    } else {
        None
    }
}

/// The message of an undeclared variable.
pub open spec fn undefined_message(name: Seq<char>) -> Seq<char> {
    "Undefined variable: "@ + name
}

/// Parses a statement.
pub open spec fn p_stmt(toks: Seq<TokenView>, st: ParseState) -> Result<ParseState, Seq<char>>
    decreases toks.len() - st.pos, 10nat,
{
    match cur(toks, st.pos) {
        TokenView::Return => match p_expr(toks, advance(st)) {
            Ok(s1) => match p_expect(toks, s1, TokenView::Semicolon) {
                Ok(s2) => Ok(emit(s2, Opcode::Ret)),
                Err(e) => Err(e),
            },
            Err(e) => Err(e),
        },
        TokenView::If => p_if(toks, st),
        TokenView::While => p_while(toks, st),
        TokenView::LBrace => match p_block_body(toks, advance(st)) {
            Ok(s1) => p_expect(toks, s1, TokenView::RBrace),
            Err(e) => Err(e),
        },
        TokenView::Int => p_local_decl(toks, st),
        _ => match p_expr(toks, st) {
            Ok(s1) => p_expect(toks, s1, TokenView::Semicolon),
            Err(e) => Err(e),
        },
    }
}

/// Parses statements up to (not including) a closing brace.
pub open spec fn p_block_body(toks: Seq<TokenView>, st: ParseState) -> Result<ParseState, Seq<char>>
    decreases toks.len() - st.pos, 11nat,
{
    if cur(toks, st.pos) == TokenView::RBrace {
        Ok(st)
    } else {
        match p_stmt(toks, st) {
            Ok(s1) => if moved(toks, st, s1) {
                p_block_body(toks, s1)
            } else {
                Ok(s1)
            },
            Err(e) => Err(e),
        }
    }
}

/// Parses `if ( expr ) stmt [ else stmt ]`.
pub open spec fn p_if(toks: Seq<TokenView>, st: ParseState) -> Result<ParseState, Seq<char>>
    decreases toks.len() - st.pos, 9nat,
{
    match p_expect(toks, advance(st), TokenView::LParen) {
        Err(e) => Err(e),
        Ok(s1) => match p_expr(toks, s1) {
            Err(e) => Err(e),
            Ok(s2) => match p_expect(toks, s2, TokenView::RParen) {
                Err(e) => Err(e),
                Ok(s3) => {
                    let jz = s3.code.len() as int;
                    let s4 = emit(s3, Opcode::Jz(0));
                    if !moved(toks, st, s4) {
                        Ok(s4)
                    } else {
                        match p_stmt(toks, s4) {
                            Err(e) => Err(e),
                            Ok(s5) => if cur(toks, s5.pos) == TokenView::Else {
                                let s6 = advance(s5);
                                let jmp = s6.code.len() as int;
                                let s7 = emit(s6, Opcode::Jmp(0));
                                let s8 = patch(s7, jz, Opcode::Jz(s7.code.len() as i64));
                                if !moved(toks, st, s8) {
                                    Ok(s8)
                                } else {
                                    match p_stmt(toks, s8) {
                                        Err(e) => Err(e),
                                        Ok(s9) => Ok(patch(s9, jmp, Opcode::Jmp(s9.code.len() as i64))),
                                    }
                                }
                            } else {
                                Ok(patch(s5, jz, Opcode::Jz(s5.code.len() as i64)))
                            },
                        }
                    }
                },
            },
        },
    }
}

/// Parses `while ( expr ) stmt`.
pub open spec fn p_while(toks: Seq<TokenView>, st: ParseState) -> Result<ParseState, Seq<char>>
    decreases toks.len() - st.pos, 9nat,
{
    let s0 = advance(st);
    let loop_start = s0.code.len() as i64;
    match p_expect(toks, s0, TokenView::LParen) {
        Err(e) => Err(e),
        Ok(s1) => match p_expr(toks, s1) {
            Err(e) => Err(e),
            Ok(s2) => match p_expect(toks, s2, TokenView::RParen) {
                Err(e) => Err(e),
                Ok(s3) => {
                    let jz = s3.code.len() as int;
                    let s4 = emit(s3, Opcode::Jz(0));
                    if !moved(toks, st, s4) {
                        Ok(s4)
                    } else {
                        match p_stmt(toks, s4) {
                            Err(e) => Err(e),
                            Ok(s5) => {
                                let s6 = emit(s5, Opcode::Jmp(loop_start));
                                Ok(patch(s6, jz, Opcode::Jz(s6.code.len() as i64)))
                            },
                        }
                    }
                },
            },
        },
    }
}

/// Parses `int x, y, ...;` after the `int`.
pub open spec fn p_decl_names(toks: Seq<TokenView>, st: ParseState) -> Result<ParseState, Seq<char>>
    decreases toks.len() - st.pos,
{
    match cur(toks, st.pos) {
        TokenView::Ident(name) => {
            let offset = (st.local_offset + 1) as i64;
            let s1 = ParseState {
                pos: st.pos + 1,
                locals: st.locals.insert(
                    name,
                    SymbolView { name, class: SymbolClass::Local, offset },
                ),
                local_offset: offset,
                ..st
            };
            if cur(toks, s1.pos) == TokenView::Comma {
                p_decl_names(toks, advance(s1))
            } else {
                p_expect(toks, s1, TokenView::Semicolon)
            }
        },
        _ => Err("Expected identifier in local declaration"@),
    }
}

/// Parses a local variable declaration `int x, y;`.
pub open spec fn p_local_decl(toks: Seq<TokenView>, st: ParseState) -> Result<ParseState, Seq<char>> {
    p_decl_names(toks, advance(st))
}

/// Parses an expression.
pub open spec fn p_expr(toks: Seq<TokenView>, st: ParseState) -> Result<ParseState, Seq<char>>
    decreases toks.len() - st.pos, 8nat,
{
    p_assignment(toks, st)
}

/// Parses `name = assignment`, or else an additive expression.
pub open spec fn p_assignment(toks: Seq<TokenView>, st: ParseState) -> Result<ParseState, Seq<char>>
    decreases toks.len() - st.pos, 7nat,
{
    match cur(toks, st.pos) {
        TokenView::Ident(name) => if cur(toks, st.pos + 1) == TokenView::Assign {
            match p_assignment(toks, ParseState { pos: st.pos + 2, ..st }) {
                Err(e) => Err(e),
                Ok(s1) => match variable_offset(s1, name) {
                    Some(offset) => Ok(emit(s1, Opcode::St(offset))),
                    None => Err(undefined_message(name)),
                },
            }
        } else {
            p_additive(toks, st)
        },
        _ => p_additive(toks, st),
    }
}

/// Parses `term { (+|-) term }`.
pub open spec fn p_additive(toks: Seq<TokenView>, st: ParseState) -> Result<ParseState, Seq<char>>
    decreases toks.len() - st.pos, 6nat,
{
    match p_term(toks, st) {
        Err(e) => Err(e),
        Ok(s1) => if moved(toks, st, s1) {
            p_additive_rest(toks, s1)
        } else {
            Ok(s1)
        },
    }
}

/// Parses `{ (+|-) term }`.
pub open spec fn p_additive_rest(toks: Seq<TokenView>, st: ParseState) -> Result<
    ParseState,
    Seq<char>,
>
    decreases toks.len() - st.pos, 6nat,
{
    let t = cur(toks, st.pos);
    if t == TokenView::Plus || t == TokenView::Minus {
        match p_term(toks, advance(st)) {
            Err(e) => Err(e),
            Ok(s1) => {
                let s2 = emit(
                    s1,
                    if t == TokenView::Plus {
                        Opcode::Add
                    } else {
                        Opcode::Sub
                    },
                );
                if moved(toks, st, s2) {
                    p_additive_rest(toks, s2)
                } else {
                    Ok(s2)
                }
            },
        }
    } else {
        Ok(st)
    }
}

/// Parses `factor { (*|/) factor }`.
pub open spec fn p_term(toks: Seq<TokenView>, st: ParseState) -> Result<ParseState, Seq<char>>
    decreases toks.len() - st.pos, 5nat,
{
    match p_factor(toks, st) {
        Err(e) => Err(e),
        Ok(s1) => if moved(toks, st, s1) {
            p_term_rest(toks, s1)
        } else {
            Ok(s1)
        },
    }
}

/// Parses `{ (*|/) factor }`.
pub open spec fn p_term_rest(toks: Seq<TokenView>, st: ParseState) -> Result<ParseState, Seq<char>>
    decreases toks.len() - st.pos, 4nat,
{
    let t = cur(toks, st.pos);
    if t == TokenView::Mul || t == TokenView::Div {
        match p_factor(toks, advance(st)) {
            Err(e) => Err(e),
            Ok(s1) => {
                let s2 = emit(
                    s1,
                    if t == TokenView::Mul {
                        Opcode::Mul
                    } else {
                        Opcode::Div
                    },
                );
                if moved(toks, st, s2) {
                    p_term_rest(toks, s2)
                } else {
                    Ok(s2)
                }
            },
        }
    } else {
        Ok(st)
    }
}

/// Parses a number, a variable, or a parenthesized expression.
pub open spec fn p_factor(toks: Seq<TokenView>, st: ParseState) -> Result<ParseState, Seq<char>>
    decreases toks.len() - st.pos, 3nat,
{
    match cur(toks, st.pos) {
        TokenView::Num(n) => Ok(emit(advance(st), Opcode::Imm(n))),
        TokenView::Ident(name) => match variable_offset(st, name) {
            Some(offset) => Ok(emit(advance(st), Opcode::Ld(offset))),
            None => Err(undefined_message(name)),
        },
        TokenView::LParen => match p_expr(toks, advance(st)) {
            Err(e) => Err(e),
            Ok(s1) => p_expect(toks, s1, TokenView::RParen),
        },
        t => Err("Unexpected token in factor: "@ + token_text(t)),
    }
}

/// The position of the first `;` or `EOF` at or after `pos`.
pub open spec fn skip_declaration(toks: Seq<TokenView>, pos: int) -> int
    decreases toks.len() - pos,
{
    if cur(toks, pos) != TokenView::Semicolon && cur(toks, pos) != TokenView::EOF {
        skip_declaration(toks, pos + 1)
    } else {
        pos
    }
}

/// The stack entry of a global, given the number of globals declared
/// before it: the first global takes entry 0, which locals leave free; each
/// further global takes an entry above the machine's 32 initial entries
/// (32, 33, ...), which its declaration pushes. Locals take the entries from
/// 1 on.
pub open spec fn global_entry(count: i64) -> i64 {
    if count == 0 {
        0
    } else {
        (31 + count) as i64
    }
}

/// The state at the start of a function body: no locals yet.
pub open spec fn enter_function(st: ParseState) -> ParseState {
    ParseState { locals: Map::empty(), local_offset: 0, ..st }
}

/// The state after declaring the global `name`: it takes the entry
/// `global_entry(global_count)`, and, where that lies above the initial
/// entries, the code pushes a zero to hold it.
pub open spec fn declare_global(st: ParseState, name: Seq<char>) -> ParseState {
    ParseState {
        globals: st.globals.insert(
            name,
            SymbolView { name, class: SymbolClass::Global, offset: global_entry(st.global_count) },
        ),
        global_count: (st.global_count + 1) as i64,
        code: if st.global_count > 0 {
            st.code.push(Opcode::Imm(0))
        } else {
            st.code
        },
        ..st
    }
}

/// Parses the body of `main` after its `{`: a new local scope, the
/// statements, the `}`, and a closing `Ret`.
pub open spec fn p_main_body(toks: Seq<TokenView>, st: ParseState) -> Result<ParseState, Seq<char>> {
    let s5 = enter_function(st);
    match p_block_body(toks, s5) {
        Err(e) => Err(e),
        Ok(s6) => match p_expect(toks, s6, TokenView::RBrace) {
            Err(e) => Err(e),
            Ok(s7) => Ok(emit(s7, Opcode::Ret)),
        },
    }
}

pub(crate) proof fn lemma_skip_declaration_bounds(toks: Seq<TokenView>, pos: int)
    requires
        0 <= pos <= toks.len(),
    ensures
        pos <= skip_declaration(toks, pos) <= toks.len(),
    decreases toks.len() - pos,
{
    if cur(toks, pos) != TokenView::Semicolon && cur(toks, pos) != TokenView::EOF {
        lemma_skip_declaration_bounds(toks, pos + 1);
    }
}

/// Parses global declarations and function definitions up to `EOF`.
pub open spec fn p_program(toks: Seq<TokenView>, st: ParseState) -> Result<ParseState, Seq<char>>
    decreases toks.len() - st.pos,
{
    let t = cur(toks, st.pos);
    if t == TokenView::EOF {
        Ok(st)
    } else if t != TokenView::Int {
        Err("Unexpected token at global scope: "@ + token_text(t))
    } else {
        let s0 = advance(st);
        match cur(toks, s0.pos) {
            TokenView::Ident(name) => {
                let s1 = advance(s0);
                if cur(toks, s1.pos) == TokenView::LParen {
                    if name != "main"@ {
                        Err("Only main function is supported"@)
                    } else {
                        match p_expect(toks, advance(s1), TokenView::RParen) {
                            Err(e) => Err(e),
                            Ok(s3) => match p_expect(toks, s3, TokenView::LBrace) {
                                Err(e) => Err(e),
                                Ok(s4) => match p_main_body(toks, s4) {
                                    Err(e) => Err(e),
                                    Ok(s8) => if moved(toks, st, s8) {
                                        p_program(toks, s8)
                                    } else {
                                        Ok(s8)
                                    },
                                },
                            },
                        }
                    }
                } else {
                    let s2 = declare_global(s1, name);
                    let s3 = ParseState { pos: skip_declaration(toks, s2.pos), ..s2 };
                    match p_expect(toks, s3, TokenView::Semicolon) {
                        Err(e) => Err(e),
                        Ok(s4) => if moved(toks, st, s4) {
                            p_program(toks, s4)
                        } else {
                            Ok(s4)
                        },
                    }
                }
            },
            _ => Err("Expected identifier after type"@),
        }
    }
}

// ---------------------------------------------------------------------------
// Every successful parse of a statement or an expression consumes tokens, so
// the progress conditions (`moved`) in the definitions above always hold.
// ---------------------------------------------------------------------------

/// A successful result that lies at or after `st`.
pub open spec fn ok_stays_or_moves(toks: Seq<TokenView>, st: ParseState, r: Result<ParseState, Seq<char>>) -> bool {
    r matches Ok(s1) ==> stayed_or_moved(toks, st, s1)
}

/// A successful result that lies after `st`.
pub open spec fn ok_moves(toks: Seq<TokenView>, st: ParseState, r: Result<ParseState, Seq<char>>) -> bool {
    r matches Ok(s1) ==> moved(toks, st, s1)
}

proof fn lemma_factor_moves(toks: Seq<TokenView>, st: ParseState)
    requires
        0 <= st.pos <= toks.len(),
    ensures
        ok_moves(toks, st, p_factor(toks, st)),
    decreases toks.len() - st.pos, 3nat,
{
    if cur(toks, st.pos) == TokenView::LParen {
        lemma_expr_moves(toks, advance(st));
    }
}

proof fn lemma_term_rest_moves(toks: Seq<TokenView>, st: ParseState)
    requires
        0 <= st.pos <= toks.len(),
    ensures
        ok_stays_or_moves(toks, st, p_term_rest(toks, st)),
    decreases toks.len() - st.pos, 4nat,
{
    let t = cur(toks, st.pos);
    if t == TokenView::Mul || t == TokenView::Div {
        lemma_factor_moves(toks, advance(st));
        if let Ok(s1) = p_factor(toks, advance(st)) {
            let s2 = emit(s1, if t == TokenView::Mul { Opcode::Mul } else { Opcode::Div });
            lemma_term_rest_moves(toks, s2);
        }
    }
}

proof fn lemma_term_moves(toks: Seq<TokenView>, st: ParseState)
    requires
        0 <= st.pos <= toks.len(),
    ensures
        ok_moves(toks, st, p_term(toks, st)),
    decreases toks.len() - st.pos, 5nat,
{
    lemma_factor_moves(toks, st);
    if let Ok(s1) = p_factor(toks, st) {
        lemma_term_rest_moves(toks, s1);
    }
}

proof fn lemma_additive_rest_moves(toks: Seq<TokenView>, st: ParseState)
    requires
        0 <= st.pos <= toks.len(),
    ensures
        ok_stays_or_moves(toks, st, p_additive_rest(toks, st)),
    decreases toks.len() - st.pos, 6nat,
{
    let t = cur(toks, st.pos);
    if t == TokenView::Plus || t == TokenView::Minus {
        lemma_term_moves(toks, advance(st));
        if let Ok(s1) = p_term(toks, advance(st)) {
            let s2 = emit(s1, if t == TokenView::Plus { Opcode::Add } else { Opcode::Sub });
            lemma_additive_rest_moves(toks, s2);
        }
    }
}

proof fn lemma_additive_moves(toks: Seq<TokenView>, st: ParseState)
    requires
        0 <= st.pos <= toks.len(),
    ensures
        ok_moves(toks, st, p_additive(toks, st)),
    decreases toks.len() - st.pos, 6nat,
{
    lemma_term_moves(toks, st);
    if let Ok(s1) = p_term(toks, st) {
        lemma_additive_rest_moves(toks, s1);
    }
}

proof fn lemma_assignment_moves(toks: Seq<TokenView>, st: ParseState)
    requires
        0 <= st.pos <= toks.len(),
    ensures
        ok_moves(toks, st, p_assignment(toks, st)),
    decreases toks.len() - st.pos, 7nat,
{
    lemma_additive_moves(toks, st);
    if cur(toks, st.pos) is Ident && cur(toks, st.pos + 1) == TokenView::Assign {
        lemma_assignment_moves(toks, ParseState { pos: st.pos + 2, ..st });
    }
}

proof fn lemma_expr_moves(toks: Seq<TokenView>, st: ParseState)
    requires
        0 <= st.pos <= toks.len(),
    ensures
        ok_moves(toks, st, p_expr(toks, st)),
    decreases toks.len() - st.pos, 8nat,
{
    lemma_assignment_moves(toks, st);
}

proof fn lemma_if_moves(toks: Seq<TokenView>, st: ParseState)
    requires
        0 <= st.pos <= toks.len(),
    ensures
        ok_moves(toks, st, p_if(toks, st)),
    decreases toks.len() - st.pos, 9nat,
{
    if let Ok(s1) = p_expect(toks, advance(st), TokenView::LParen) {
        lemma_expr_moves(toks, s1);
        if let Ok(s2) = p_expr(toks, s1) {
            if let Ok(s3) = p_expect(toks, s2, TokenView::RParen) {
                let s4 = emit(s3, Opcode::Jz(0));
                if moved(toks, st, s4) {
                    lemma_stmt_moves(toks, s4);
                    if let Ok(s5) = p_stmt(toks, s4) {
                        if cur(toks, s5.pos) == TokenView::Else {
                            let s6 = advance(s5);
                            let s7 = emit(s6, Opcode::Jmp(0));
                            let s8 = patch(s7, s3.code.len() as int, Opcode::Jz(s7.code.len() as i64));
                            if moved(toks, st, s8) {
                                lemma_stmt_moves(toks, s8);
                            }
                        }
                    }
                }
            }
        }
    }
}

proof fn lemma_while_moves(toks: Seq<TokenView>, st: ParseState)
    requires
        0 <= st.pos <= toks.len(),
    ensures
        ok_moves(toks, st, p_while(toks, st)),
    decreases toks.len() - st.pos, 9nat,
{
    if let Ok(s1) = p_expect(toks, advance(st), TokenView::LParen) {
        lemma_expr_moves(toks, s1);
        if let Ok(s2) = p_expr(toks, s1) {
            if let Ok(s3) = p_expect(toks, s2, TokenView::RParen) {
                let s4 = emit(s3, Opcode::Jz(0));
                if moved(toks, st, s4) {
                    lemma_stmt_moves(toks, s4);
                }
            }
        }
    }
}

proof fn lemma_decl_names_moves(toks: Seq<TokenView>, st: ParseState)
    requires
        0 <= st.pos <= toks.len(),
    ensures
        ok_moves(toks, st, p_decl_names(toks, st)),
    decreases toks.len() - st.pos,
{
    if let TokenView::Ident(name) = cur(toks, st.pos) {
        let offset = (st.local_offset + 1) as i64;
        let s1 = ParseState {
            pos: st.pos + 1,
            locals: st.locals.insert(name, SymbolView { name, class: SymbolClass::Local, offset }),
            local_offset: offset,
            ..st
        };
        if cur(toks, s1.pos) == TokenView::Comma {
            lemma_decl_names_moves(toks, advance(s1));
        }
    }
}

proof fn lemma_block_body_moves(toks: Seq<TokenView>, st: ParseState)
    requires
        0 <= st.pos <= toks.len(),
    ensures
        ok_stays_or_moves(toks, st, p_block_body(toks, st)),
    decreases toks.len() - st.pos, 11nat,
{
    if cur(toks, st.pos) != TokenView::RBrace {
        lemma_stmt_moves(toks, st);
        if let Ok(s1) = p_stmt(toks, st) {
            lemma_block_body_moves(toks, s1);
        }
    }
}

proof fn lemma_stmt_moves(toks: Seq<TokenView>, st: ParseState)
    requires
        0 <= st.pos <= toks.len(),
    ensures
        ok_moves(toks, st, p_stmt(toks, st)),
    decreases toks.len() - st.pos, 10nat,
{
    match cur(toks, st.pos) {
        TokenView::Return => lemma_expr_moves(toks, advance(st)),
        TokenView::If => lemma_if_moves(toks, st),
        TokenView::While => lemma_while_moves(toks, st),
        TokenView::LBrace => lemma_block_body_moves(toks, advance(st)),
        TokenView::Int => lemma_decl_names_moves(toks, advance(st)),
        _ => lemma_expr_moves(toks, st),
    }
}

/// Every successful parse of a statement, a block body or an expression
/// from a position within the tokens ends within the tokens, and, but for
/// an empty block body, strictly after where it started. So the progress
/// conditions in the definitions of the parser always hold.
pub proof fn successful_parses_consume_tokens(toks: Seq<TokenView>, st: ParseState)
    requires
        0 <= st.pos <= toks.len(),
    ensures
        ok_moves(toks, st, p_stmt(toks, st)),
        ok_moves(toks, st, p_expr(toks, st)),
        ok_moves(toks, st, p_term(toks, st)),
        ok_moves(toks, st, p_factor(toks, st)),
        ok_stays_or_moves(toks, st, p_block_body(toks, st)),
        ok_stays_or_moves(toks, st, p_additive_rest(toks, st)),
        ok_stays_or_moves(toks, st, p_term_rest(toks, st)),
{
    lemma_stmt_moves(toks, st);
    lemma_expr_moves(toks, st);
    lemma_term_moves(toks, st);
    lemma_factor_moves(toks, st);
    lemma_block_body_moves(toks, st);
    lemma_additive_rest_moves(toks, st);
    lemma_term_rest_moves(toks, st);
}

/// The state a parser starts in.
pub open spec fn initial_parse_state() -> ParseState {
    ParseState {
        pos: 0,
        code: Seq::empty(),
        globals: Map::empty(),
        locals: Map::empty(),
        local_offset: 0,
        global_count: 0,
    }
}

/// What parsing a token sequence yields: the opcodes, or the message of the
/// first syntax error.
pub open spec fn parse_tokens(toks: Seq<TokenView>) -> Result<Seq<Opcode>, Seq<char>> {
    match p_program(toks, initial_parse_state()) {
        Ok(st) => Ok(st.code),
        Err(e) => Err(e),
    }
}

/// The view of a parser result.
pub open spec fn parse_result_view(r: ParseResult) -> Result<Seq<Opcode>, Seq<char>> {
    match r {
        Ok(code) => Ok(code@),
        Err(e) => Err(e@),
    }
}

/// The largest token sequence a parser takes: its local offsets must fit in
/// an `i64`.
pub open spec fn parser_capacity() -> nat {
    i64::MAX as nat
}

/// An opcode whose jump lands within `0..=n` and whose variable offset is
/// not negative.
pub open spec fn op_is_closed(op: Opcode, n: int) -> bool {
    match op {
        Opcode::Jz(t) => 0 <= t <= n,
        Opcode::Jmp(t) => 0 <= t <= n,
        Opcode::Ld(o) => 0 <= o,
        Opcode::St(o) => 0 <= o,
        _ => true,
    }
}

/// Every jump of `code` lands within the code or just past its end, and
/// every load and store names a non-negative offset.
pub open spec fn code_is_closed(code: Seq<Opcode>) -> bool {
    forall|i: int| 0 <= i < code.len() ==> op_is_closed(#[trigger] code[i], code.len() as int)
}

/// Every jump of `code` lands on one of its opcodes, and every load and
/// store names a non-negative offset.
pub open spec fn jumps_land_inside(code: Seq<Opcode>) -> bool {
    forall|i: int| 0 <= i < code.len() ==> op_is_closed(#[trigger] code[i], code.len() - 1)
}

/// Every symbol of a table has a non-negative offset.
pub open spec fn offsets_nonnegative(m: Map<Seq<char>, SymbolView>) -> bool {
    forall|k: Seq<char>| m.contains_key(k) ==> m[k].offset >= 0
}

/// From `a` to `b` the code only grew, by at most one opcode per token
/// consumed.
pub open spec fn grew_within(a: ParseState, b: ParseState) -> bool {
    &&& a.code.len() <= b.code.len()
    &&& b.code.len() - a.code.len() <= b.pos - a.pos
}

/// A parse step's result seen with the state it leaves.
pub open spec fn outcome(r: Result<(), String>, st: ParseState) -> Result<ParseState, Seq<char>> {
    match r {
        Ok(_) => Ok(st),
        Err(e) => Err(e@),
    }
}

// ---------------------------------------------------------------------------
// The parser.
// ---------------------------------------------------------------------------

/// A recursive descent parser over a token sequence.
pub struct Parser {
    tokens: Vec<Token>,
    pos: usize,
    opcodes: Vec<Opcode>,
    globals: SymbolTable,
    locals: SymbolTable,
    local_offset: i64,
    /// The number of global declarations so far; the next global's offset.
    global_count: i64,
}

impl View for Parser {
    type V = ParserView;

    closed spec fn view(&self) -> ParserView {
        ParserView {
            tokens: tokens_view(self.tokens@),
            state: ParseState {
                pos: self.pos as int,
                code: self.opcodes@,
                globals: self.globals.map(),
                locals: self.locals.map(),
                local_offset: self.local_offset,
                global_count: self.global_count,
            },
        }
    }
}

broadcast use {
    crate::earlier::lemma_keeps_earlier_trans,
    crate::earlier::lemma_keeps_code_trans,
    crate::earlier::lemma_earlier_keeps_code,
};

impl Parser {
    /// The parser's invariant: the position lies within the tokens, the
    /// symbol tables hold distinct names, and the local offsets handed out
    /// and the globals declared are no more than the tokens consumed.
    pub closed spec fn wf(&self) -> bool {
        &&& self.pos <= self.tokens@.len()
        &&& self.tokens@.len() <= parser_capacity()
        &&& 0 <= self.local_offset <= self.pos
        &&& 0 <= self.global_count
        &&& 2 * self.global_count <= self.pos
        &&& self.globals.wf()
        &&& self.locals.wf()
        &&& self.opcodes@.len() <= self.pos
        &&& code_is_closed(self.opcodes@)
        &&& offsets_nonnegative(self.globals.map())
        &&& offsets_nonnegative(self.locals.map())
    }

    /// Creates a new parser instance.
    pub fn new(tokens: Vec<Token>) -> (p: Parser)
        requires
            tokens@.len() <= parser_capacity(),
        ensures
            p.wf(),
            p@.tokens == tokens_view(tokens@),
            p@.state == initial_parse_state(),
    {
        let p = Parser {
            tokens,
            pos: 0,
            opcodes: Vec::new(),
            globals: SymbolTable::new(),
            locals: SymbolTable::new(),
            local_offset: 0,
            global_count: 0,
        };
        assert(p@.state.code =~= Seq::<Opcode>::empty());
        p
    }

    /// Returns a reference to the current token.
    fn current(&self) -> (t: &Token)
        ensures
            t@ == cur(self@.tokens, self@.state.pos),
    {
        if self.pos < self.tokens.len() {
            &self.tokens[self.pos]
        } else {
            &Token::EOF
        }
    }

    /// Whether the current token is `token`.
    fn at(&self, token: &Token) -> (r: bool)
        ensures
            r == (cur(self@.tokens, self@.state.pos) == token@),
    {
        same_token(self.current(), token)
    }

    /// Consumes the current token if it matches the given token. Eating an
    /// `EOF` past the last token moves the position past the end, where the
    /// parser's invariant no longer holds (no caller in the parser does so).
    fn eat(&mut self, token: &Token) -> (r: bool)
        requires
            old(self).wf(),
            token@ == TokenView::EOF ==> old(self)@.state.pos < usize::MAX,
        ensures
            !(r && old(self)@.state.pos == old(self)@.tokens.len()) ==> final(self).wf(),
            final(self)@.tokens == old(self)@.tokens,
            r == (cur(old(self)@.tokens, old(self)@.state.pos) == token@),
            final(self)@.state == (if r {
                advance(old(self)@.state)
            } else {
                old(self)@.state
            }),
            keeps_earlier(old(self)@.state, final(self)@.state),
    {
        proof {
            lemma_keeps_earlier_same(old(self)@.state, advance(old(self)@.state));
            lemma_keeps_earlier_same(old(self)@.state, old(self)@.state);
        }
        if self.at(token) {
            proof {
                assert(self.tokens@.len() == self.tokens.len());
            }
            self.pos += 1;
            true
        } else {
            false
        }
    }

    /// Expects that the current token matches the given token.
    fn expect(&mut self, token: &Token) -> (r: Result<(), String>)
        requires
            old(self).wf(),
            token@ == TokenView::EOF ==> old(self)@.state.pos < usize::MAX,
        ensures
            !(r is Ok && old(self)@.state.pos == old(self)@.tokens.len()) ==> final(self).wf(),
            final(self)@.tokens == old(self)@.tokens,
            outcome(r, final(self)@.state) == p_expect(
                old(self)@.tokens,
                old(self)@.state,
                token@,
            ),
            r is Ok && old(self)@.state.pos < old(self)@.tokens.len() ==> moved(
                old(self)@.tokens,
                old(self)@.state,
                final(self)@.state,
            ),
            r is Err ==> final(self)@.state == old(self)@.state,
            keeps_earlier(old(self)@.state, final(self)@.state),
    {
        if self.eat(token) {
            Ok(())
        } else {
            let mut msg = String::from_str("Expected ");
            push_token_text(&mut msg, token);
            msg.append(", found ");
            push_token_text(&mut msg, self.current());
            Err(msg)
        }
    }

    /// Emits an opcode.
    fn emit_op(&mut self, op: Opcode)
        requires
            old(self).wf(),
            old(self)@.state.code.len() < old(self)@.state.pos,
            op_is_closed(op, old(self)@.state.code.len() + 1int),
        ensures
            final(self).wf(),
            final(self)@.tokens == old(self)@.tokens,
            final(self)@.state == emit(old(self)@.state, op),
            keeps_earlier(old(self)@.state, final(self)@.state),
    {
        let ghost before = self.opcodes@;
        self.opcodes.push(op);
        proof {
            lemma_keeps_earlier_same(old(self)@.state, old(self)@.state);
            lemma_keeps_earlier_emit(old(self)@.state, old(self)@.state, op);
        }
        assert forall|i: int| 0 <= i < self.opcodes@.len() implies op_is_closed(
            #[trigger] self.opcodes@[i],
            self.opcodes@.len() as int,
        ) by {
            if i < before.len() {
                assert(op_is_closed(before[i], before.len() as int));
            }
        }
    }

    /// Replaces the opcode at index `at`.
    fn patch_op(&mut self, at: usize, op: Opcode)
        requires
            old(self).wf(),
            at < old(self)@.state.code.len(),
            op_is_closed(op, old(self)@.state.code.len() as int),
        ensures
            final(self).wf(),
            final(self)@.tokens == old(self)@.tokens,
            final(self)@.state == patch(old(self)@.state, at as int, op),
    {
        let ghost before = self.opcodes@;
        self.opcodes.set(at, op);
        assert forall|i: int| 0 <= i < self.opcodes@.len() implies op_is_closed(
            #[trigger] self.opcodes@[i],
            self.opcodes@.len() as int,
        ) by {
            if i != at {
                assert(op_is_closed(before[i], before.len() as int));
            }
        }
    }

    /// Emits the load or store of a variable, or reports it undefined.
    fn variable_op(&mut self, name: &String, store: bool) -> (r: Result<(), String>)
        requires
            old(self).wf(),
            old(self)@.state.code.len() < old(self)@.state.pos,
        ensures
            final(self).wf(),
            final(self)@.tokens == old(self)@.tokens,
            outcome(r, final(self)@.state) == match variable_offset(old(self)@.state, name@) {
                Some(offset) => Ok(emit(old(self)@.state, if store {
                    Opcode::St(offset)
                } else {
                    Opcode::Ld(offset)
                })),
                None => Err(undefined_message(name@)),
            },
            keeps_earlier(old(self)@.state, final(self)@.state),
    {
        proof {
            lemma_keeps_earlier_same(old(self)@.state, old(self)@.state);
        }
        let found = match self.locals.offset_of(name) {
            Some(offset) => Some(offset),
            None => self.globals.offset_of(name),
        };
        match found {
            Some(offset) => {
                if store {
                    self.emit_op(Opcode::St(offset));
                } else {
                    self.emit_op(Opcode::Ld(offset));
                }
                Ok(())
            },
            None => {
                let mut msg = String::from_str("Undefined variable: ");
                msg.append(name.as_str());
                Err(msg)
            },
        }
    }

    /// Consumes the current token, which is not `EOF`.
    fn advance_pos(&mut self)
        requires
            old(self).wf(),
            cur(old(self)@.tokens, old(self)@.state.pos) != TokenView::EOF,
        ensures
            final(self).wf(),
            final(self)@.tokens == old(self)@.tokens,
            final(self)@.state == advance(old(self)@.state),
            keeps_earlier(old(self)@.state, final(self)@.state),
    {
        proof {
            assert(self.tokens@.len() == self.tokens.len());
            lemma_keeps_earlier_same(old(self)@.state, advance(old(self)@.state));
        }
        self.pos += 1;
    }

    /// Parses a number, a variable, or a parenthesized expression.
    fn parse_factor(&mut self) -> (r: Result<(), String>)
        requires
            old(self).wf(),
        ensures
            final(self).wf(),
            final(self)@.tokens == old(self)@.tokens,
            keeps_earlier(old(self)@.state, final(self)@.state),
            outcome(r, final(self)@.state) == p_factor(old(self)@.tokens, old(self)@.state),
            r is Ok ==> moved(old(self)@.tokens, old(self)@.state, final(self)@.state),
            r is Ok ==> grew_within(old(self)@.state, final(self)@.state),
        decreases old(self)@.tokens.len() - old(self)@.state.pos, 3nat,
    {
        proof {
            lemma_keeps_earlier_same(self@.state, self@.state);
        }
        match self.current() {
            Token::Num(n) => {
                let value = *n;
                self.advance_pos();
                self.emit_op(Opcode::Imm(value));
                Ok(())
            },
            Token::Ident(name) => {
                let var_name = name.clone();
                self.advance_pos();
                self.variable_op(&var_name, false)
            },
            Token::LParen => {
                self.advance_pos();
                self.parse_expr()?;
                self.expect(&Token::RParen)
            },
            _ => {
                let mut msg = String::from_str("Unexpected token in factor: ");
                push_token_text(&mut msg, self.current());
                Err(msg)
            },
        }
    }

    /// Parses `factor { (*|/) factor }`.
    fn parse_term(&mut self) -> (r: Result<(), String>)
        requires
            old(self).wf(),
        ensures
            final(self).wf(),
            final(self)@.tokens == old(self)@.tokens,
            keeps_earlier(old(self)@.state, final(self)@.state),
            outcome(r, final(self)@.state) == p_term(old(self)@.tokens, old(self)@.state),
            r is Ok ==> moved(old(self)@.tokens, old(self)@.state, final(self)@.state),
            r is Ok ==> grew_within(old(self)@.state, final(self)@.state),
        decreases old(self)@.tokens.len() - old(self)@.state.pos, 5nat,
    {
        let ghost toks = self@.tokens;
        let ghost st = self@.state;
        self.parse_factor()?;
        loop
            invariant
                self.wf(),
                toks == old(self)@.tokens,
                st == old(self)@.state,
                self@.tokens == toks,
                moved(toks, st, self@.state),
                grew_within(st, self@.state),
                keeps_earlier(st, self@.state),
                p_term(toks, st) == p_term_rest(toks, self@.state),
            decreases toks.len() - self@.state.pos,
        {
            let is_mul = self.at(&Token::Mul);
            if !is_mul && !self.at(&Token::Div) {
                return Ok(());
            }
            self.advance_pos();
            self.parse_factor()?;
            if is_mul {
                self.emit_op(Opcode::Mul);
            } else {
                self.emit_op(Opcode::Div);
            }
        }
    }

    /// Parses `term { (+|-) term }`.
    fn parse_additive(&mut self) -> (r: Result<(), String>)
        requires
            old(self).wf(),
        ensures
            final(self).wf(),
            final(self)@.tokens == old(self)@.tokens,
            keeps_earlier(old(self)@.state, final(self)@.state),
            outcome(r, final(self)@.state) == p_additive(old(self)@.tokens, old(self)@.state),
            r is Ok ==> moved(old(self)@.tokens, old(self)@.state, final(self)@.state),
            r is Ok ==> grew_within(old(self)@.state, final(self)@.state),
        decreases old(self)@.tokens.len() - old(self)@.state.pos, 6nat,
    {
        let ghost toks = self@.tokens;
        let ghost st = self@.state;
        self.parse_term()?;
        loop
            invariant
                self.wf(),
                toks == old(self)@.tokens,
                st == old(self)@.state,
                self@.tokens == toks,
                moved(toks, st, self@.state),
                grew_within(st, self@.state),
                keeps_earlier(st, self@.state),
                p_additive(toks, st) == p_additive_rest(toks, self@.state),
            decreases toks.len() - self@.state.pos,
        {
            let is_plus = self.at(&Token::Plus);
            if !is_plus && !self.at(&Token::Minus) {
                return Ok(());
            }
            self.advance_pos();
            self.parse_term()?;
            if is_plus {
                self.emit_op(Opcode::Add);
            } else {
                self.emit_op(Opcode::Sub);
            }
        }
    }

    /// Parses `name = assignment`, or else an additive expression.
    fn parse_assignment(&mut self) -> (r: Result<(), String>)
        requires
            old(self).wf(),
        ensures
            final(self).wf(),
            final(self)@.tokens == old(self)@.tokens,
            keeps_earlier(old(self)@.state, final(self)@.state),
            outcome(r, final(self)@.state) == p_assignment(old(self)@.tokens, old(self)@.state),
            r is Ok ==> moved(old(self)@.tokens, old(self)@.state, final(self)@.state),
            r is Ok ==> grew_within(old(self)@.state, final(self)@.state),
        decreases old(self)@.tokens.len() - old(self)@.state.pos, 7nat,
    {
        let start = self.pos;
        if let Token::Ident(name) = self.current() {
            let ident = name.clone();
            self.advance_pos();
            if self.eat(&Token::Assign) {
                self.parse_assignment()?;
                return self.variable_op(&ident, true);
            } else {
                self.pos = start;
            }
        }
        self.parse_additive()
    }

    /// Parses an expression.
    fn parse_expr(&mut self) -> (r: Result<(), String>)
        requires
            old(self).wf(),
        ensures
            final(self).wf(),
            final(self)@.tokens == old(self)@.tokens,
            keeps_earlier(old(self)@.state, final(self)@.state),
            outcome(r, final(self)@.state) == p_expr(old(self)@.tokens, old(self)@.state),
            r is Ok ==> moved(old(self)@.tokens, old(self)@.state, final(self)@.state),
            r is Ok ==> grew_within(old(self)@.state, final(self)@.state),
        decreases old(self)@.tokens.len() - old(self)@.state.pos, 8nat,
    {
        self.parse_assignment()
    }

    /// Parses statements up to (not including) a closing brace.
    fn parse_block_body(&mut self) -> (r: Result<(), String>)
        requires
            old(self).wf(),
        ensures
            final(self).wf(),
            final(self)@.tokens == old(self)@.tokens,
            keeps_earlier(old(self)@.state, final(self)@.state),
            outcome(r, final(self)@.state) == p_block_body(old(self)@.tokens, old(self)@.state),
            r is Ok ==> stayed_or_moved(old(self)@.tokens, old(self)@.state, final(self)@.state),
            r is Ok ==> grew_within(old(self)@.state, final(self)@.state),
        decreases old(self)@.tokens.len() - old(self)@.state.pos, 11nat,
    {
        let ghost toks = self@.tokens;
        let ghost st = self@.state;
        proof {
            lemma_keeps_earlier_same(st, st);
        }
        while !self.at(&Token::RBrace)
            invariant
                self.wf(),
                toks == old(self)@.tokens,
                st == old(self)@.state,
                self@.tokens == toks,
                stayed_or_moved(toks, st, self@.state),
                grew_within(st, self@.state),
                keeps_earlier(st, self@.state),
                p_block_body(toks, st) == p_block_body(toks, self@.state),
            decreases toks.len() - self@.state.pos,
        {
            self.parse_stmt()?;
        }
        Ok(())
    }

    /// Parses an if–else statement: `if ( expr ) stmt [ else stmt ]`.
    fn parse_if(&mut self) -> (r: Result<(), String>)
        requires
            old(self).wf(),
            cur(old(self)@.tokens, old(self)@.state.pos) == TokenView::If,
        ensures
            final(self).wf(),
            final(self)@.tokens == old(self)@.tokens,
            keeps_earlier(old(self)@.state, final(self)@.state),
            outcome(r, final(self)@.state) == p_if(old(self)@.tokens, old(self)@.state),
            r is Ok ==> moved(old(self)@.tokens, old(self)@.state, final(self)@.state),
            r is Ok ==> grew_within(old(self)@.state, final(self)@.state),
        decreases old(self)@.tokens.len() - old(self)@.state.pos, 9nat,
    {
        let ghost start = self@.state;
        self.advance_pos();
        self.expect(&Token::LParen)?;
        self.parse_expr()?;
        self.expect(&Token::RParen)?;
        let jz_index = self.opcodes.len();
        self.emit_op(Opcode::Jz(0));
        self.parse_stmt()?;
        if self.eat(&Token::Else) {
            let jmp_index = self.opcodes.len();
            self.emit_op(Opcode::Jmp(0));
            let else_addr = self.opcodes.len() as i64;
            proof {
                lemma_keeps_earlier_patch(start, self@.state, jz_index as int, Opcode::Jz(else_addr));
            }
            self.patch_op(jz_index, Opcode::Jz(else_addr));
            self.parse_stmt()?;
            let end_addr = self.opcodes.len() as i64;
            proof {
                lemma_keeps_earlier_patch(start, self@.state, jmp_index as int, Opcode::Jmp(end_addr));
            }
            self.patch_op(jmp_index, Opcode::Jmp(end_addr));
        } else {
            let addr = self.opcodes.len() as i64;
            proof {
                lemma_keeps_earlier_patch(start, self@.state, jz_index as int, Opcode::Jz(addr));
            }
            self.patch_op(jz_index, Opcode::Jz(addr));
        }
        Ok(())
    }

    /// Parses a while statement: `while ( expr ) stmt`.
    fn parse_while(&mut self) -> (r: Result<(), String>)
        requires
            old(self).wf(),
            cur(old(self)@.tokens, old(self)@.state.pos) == TokenView::While,
        ensures
            final(self).wf(),
            final(self)@.tokens == old(self)@.tokens,
            keeps_earlier(old(self)@.state, final(self)@.state),
            outcome(r, final(self)@.state) == p_while(old(self)@.tokens, old(self)@.state),
            r is Ok ==> moved(old(self)@.tokens, old(self)@.state, final(self)@.state),
            r is Ok ==> grew_within(old(self)@.state, final(self)@.state),
        decreases old(self)@.tokens.len() - old(self)@.state.pos, 9nat,
    {
        let ghost start = self@.state;
        self.advance_pos();
        let loop_start = self.opcodes.len() as i64;
        self.expect(&Token::LParen)?;
        self.parse_expr()?;
        self.expect(&Token::RParen)?;
        let jz_index = self.opcodes.len();
        self.emit_op(Opcode::Jz(0));
        self.parse_stmt()?;
        self.emit_op(Opcode::Jmp(loop_start));
        let loop_end = self.opcodes.len() as i64;
        proof {
            lemma_keeps_earlier_patch(start, self@.state, jz_index as int, Opcode::Jz(loop_end));
        }
        self.patch_op(jz_index, Opcode::Jz(loop_end));
        Ok(())
    }

    /// Parses a local variable declaration: `int x, y;`.
    fn parse_local_decl(&mut self) -> (r: Result<(), String>)
        requires
            old(self).wf(),
            cur(old(self)@.tokens, old(self)@.state.pos) == TokenView::Int,
        ensures
            final(self).wf(),
            final(self)@.tokens == old(self)@.tokens,
            keeps_earlier(old(self)@.state, final(self)@.state),
            outcome(r, final(self)@.state) == p_local_decl(old(self)@.tokens, old(self)@.state),
            r is Ok ==> moved(old(self)@.tokens, old(self)@.state, final(self)@.state),
            r is Ok ==> grew_within(old(self)@.state, final(self)@.state),
    {
        let ghost toks = self@.tokens;
        let ghost st = self@.state;
        proof {
            lemma_keeps_earlier_same(st, st);
        }
        self.advance_pos();
        loop
            invariant
                self.wf(),
                toks == old(self)@.tokens,
                st == old(self)@.state,
                self@.tokens == toks,
                moved(toks, st, self@.state),
                st.code == self@.state.code,
                st.globals == self@.state.globals,
                st.global_count == self@.state.global_count,
                p_local_decl(toks, st) == p_decl_names(toks, self@.state),
            decreases toks.len() - self@.state.pos,
        {
            proof {
                lemma_keeps_earlier_same(st, self@.state);
            }
            let var_name = match self.current() {
                Token::Ident(name) => name.clone(),
                _ => {
                    return Err(String::from_str("Expected identifier in local declaration"));
                },
            };
            self.advance_pos();
            self.local_offset += 1;
            let offset = self.local_offset;
            self.locals.insert(Symbol { name: var_name, class: SymbolClass::Local, offset });
            proof {
                lemma_keeps_earlier_same(st, self@.state);
            }
            if !self.eat(&Token::Comma) {
                return self.expect(&Token::Semicolon);
            }
        }
    }

    /// Parses a statement.
    fn parse_stmt(&mut self) -> (r: Result<(), String>)
        requires
            old(self).wf(),
        ensures
            final(self).wf(),
            final(self)@.tokens == old(self)@.tokens,
            keeps_earlier(old(self)@.state, final(self)@.state),
            outcome(r, final(self)@.state) == p_stmt(old(self)@.tokens, old(self)@.state),
            r is Ok ==> moved(old(self)@.tokens, old(self)@.state, final(self)@.state),
            r is Ok ==> grew_within(old(self)@.state, final(self)@.state),
        decreases old(self)@.tokens.len() - old(self)@.state.pos, 10nat,
    {
        if self.at(&Token::Return) {
            self.advance_pos();
            self.parse_expr()?;
            self.expect(&Token::Semicolon)?;
            self.emit_op(Opcode::Ret);
            Ok(())
        } else if self.at(&Token::If) {
            self.parse_if()
        } else if self.at(&Token::While) {
            self.parse_while()
        } else if self.at(&Token::LBrace) {
            self.advance_pos();
            self.parse_block_body()?;
            self.expect(&Token::RBrace)
        } else if self.at(&Token::Int) {
            self.parse_local_decl()
        } else {
            self.parse_expr()?;
            self.expect(&Token::Semicolon)
        }
    }

    /// Parses the body of `main` after its `{`.
    fn parse_main_body(&mut self) -> (r: Result<(), String>)
        requires
            old(self).wf(),
        ensures
            final(self).wf(),
            final(self)@.tokens == old(self)@.tokens,
            keeps_earlier(old(self)@.state, final(self)@.state),
            outcome(r, final(self)@.state) == p_main_body(old(self)@.tokens, old(self)@.state),
            r is Ok ==> moved(old(self)@.tokens, old(self)@.state, final(self)@.state),
            r is Ok ==> grew_within(old(self)@.state, final(self)@.state),
            r is Ok ==> jumps_land_inside(final(self)@.state.code),
    {
        self.locals.clear();
        self.local_offset = 0;
        self.parse_block_body()?;
        self.expect(&Token::RBrace)?;
        let ghost body = self.opcodes@;
        self.emit_op(Opcode::Ret);
        assert forall|i: int| 0 <= i < self.opcodes@.len() implies op_is_closed(
            #[trigger] self.opcodes@[i],
            self.opcodes@.len() - 1,
        ) by {
            if i < body.len() {
                assert(op_is_closed(body[i], body.len() as int));
            }
        }
        Ok(())
    }

    /// Skips the rest of a global declaration, up to its `;` or `EOF`.
    fn skip_declaration(&mut self)
        requires
            old(self).wf(),
        ensures
            final(self).wf(),
            final(self)@.tokens == old(self)@.tokens,
            final(self)@.state == (ParseState {
                pos: skip_declaration(old(self)@.tokens, old(self)@.state.pos),
                ..old(self)@.state
            }),
    {
        let ghost toks = self@.tokens;
        let ghost st = self@.state;
        while !self.at(&Token::Semicolon) && !self.at(&Token::EOF)
            invariant
                self.wf(),
                toks == old(self)@.tokens,
                st == old(self)@.state,
                self@.tokens == toks,
                self@.state == (ParseState { pos: self@.state.pos, ..st }),
                skip_declaration(toks, st.pos) == skip_declaration(toks, self@.state.pos),
            decreases toks.len() - self@.state.pos,
        {
            self.advance_pos();
        }
    }

    /// Parses the entire program.
    ///
    /// The program may contain global variable declarations and function
    /// definitions of `main`. The result and the state left behind are those
    /// of `p_program`.
    pub fn parse_program(&mut self) -> (r: Result<(), String>)
        requires
            old(self).wf(),
        ensures
            final(self).wf(),
            final(self)@.tokens == old(self)@.tokens,
            outcome(r, final(self)@.state) == p_program(old(self)@.tokens, old(self)@.state),
            r is Ok ==> cur(final(self)@.tokens, final(self)@.state.pos) == TokenView::EOF,
            keeps_code(old(self)@.state, final(self)@.state),
            r is Ok && jumps_land_inside(old(self)@.state.code) ==> jumps_land_inside(
                final(self)@.state.code,
            ),
    {
        let ghost toks = self@.tokens;
        let ghost target = p_program(toks, self@.state);
        proof {
            lemma_keeps_code_same(self@.state, self@.state);
        }
        while !self.at(&Token::EOF)
            invariant
                self.wf(),
                toks == old(self)@.tokens,
                target == p_program(old(self)@.tokens, old(self)@.state),
                self@.tokens == toks,
                p_program(toks, self@.state) == target,
                keeps_code(old(self)@.state, self@.state),
                jumps_land_inside(old(self)@.state.code) ==> jumps_land_inside(self@.state.code),
            decreases toks.len() - self@.state.pos,
        {
            let ghost iter = self@.state;
            if !self.at(&Token::Int) {
                let mut msg = String::from_str("Unexpected token at global scope: ");
                push_token_text(&mut msg, self.current());
                return Err(msg);
            }
            self.advance_pos();
            let ident = match self.current() {
                Token::Ident(name) => name.clone(),
                _ => {
                    return Err(String::from_str("Expected identifier after type"));
                },
            };
            self.advance_pos();
            if self.eat(&Token::LParen) {
                let main = String::from_str("main");
                if !ident.eq(&main) {
                    return Err(String::from_str("Only main function is supported"));
                }
                self.expect(&Token::RParen)?;
                self.expect(&Token::LBrace)?;
                self.parse_main_body()?;
            } else {
                let entry = if self.global_count == 0 {
                    0
                } else {
                    31 + self.global_count
                };
                self.globals.insert(
                    Symbol { name: ident.clone(), class: SymbolClass::Global, offset: entry },
                );
                if self.global_count > 0 {
                    self.emit_op(Opcode::Imm(0));
                }
                self.global_count = self.global_count + 1;
                proof {
                    lemma_skip_declaration_bounds(toks, self@.state.pos);
                    if iter.global_count > 0 {
                        assert(self@.state.code.subrange(0, iter.code.len() as int) =~= iter.code);
                    } else {
                        lemma_keeps_code_same(iter, self@.state);
                    }
                    assert(keeps_code(iter, self@.state));
                }
                let ghost declared = self@.state;
                self.skip_declaration();
                proof {
                    lemma_keeps_code_same(declared, self@.state);
                }
                self.expect(&Token::Semicolon)?;
            }
        }
        Ok(())
    }

    /// Parses the tokens into opcodes.
    pub fn parse(self) -> (r: ParseResult)
        requires
            self.wf(),
        ensures
            parse_result_view(r) == match p_program(self@.tokens, self@.state) {
                Ok(st) => Ok(st.code),
                Err(e) => Err(e),
            },
            r matches Ok(code) ==> code_is_closed(code@),
            jumps_land_inside(self@.state.code) ==> (r matches Ok(code) ==> jumps_land_inside(code@)),
    {
        let mut parser = self;
        parser.parse_program()?;
        Ok(parser.opcodes)
    }
}

/// Parses tokens into opcodes: those of `parse_tokens`, or the message of
/// the first syntax error.
pub fn parse(tokens: Vec<Token>) -> (r: ParseResult)
    requires
        tokens@.len() <= parser_capacity(),
    ensures
        parse_result_view(r) == parse_tokens(tokens_view(tokens@)),
        r matches Ok(code) ==> code_is_closed(code@),
        r matches Ok(code) ==> jumps_land_inside(code@),
{
    let parser = Parser::new(tokens);
    parser.parse()
}

} // verus!
