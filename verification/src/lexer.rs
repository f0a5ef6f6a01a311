//! The lexer turns C source text into a sequence of tokens.
//!
//! It recognizes the keywords `int`, `char`, `return`, `if`, `else` and
//! `while`, identifiers, decimal literals, operators, punctuation and `//`
//! comments. The token sequence always ends with `Token::EOF`.

use vstd::prelude::*;
use crate::text::{
    is_ascii_alphanumeric, char_is_alphanumeric, chars_of, debug_quoted, debug_string, decimal_text, is_alphanumeric,
    push_char, push_decimal,
};

verus! {

/// A token of the C subset.
#[derive(Debug, Clone)]
pub enum Token {
    // Keywords
    Int,
    Char,
    Return,
    If,
    Else,
    While,
    // Identifiers
    Ident(String),
    // Literals
    Num(i64),
    // Operators
    Plus,
    Minus,
    Mul,
    Div,
    Assign,
    Eq,
    Ne,
    Lt,
    Gt,
    Le,
    Ge,
    // Punctuation
    Semicolon,
    Comma,
    LParen,
    RParen,
    LBrace,
    RBrace,
    EOF,
}

/// The mathematical value of a token: an identifier is its sequence of
/// characters.
pub enum TokenView {
    Int,
    Char,
    Return,
    If,
    Else,
    While,
    Ident(Seq<char>),
    Num(i64),
    Plus,
    Minus,
    Mul,
    Div,
    Assign,
    Eq,
    Ne,
    Lt,
    Gt,
    Le,
    Ge,
    Semicolon,
    Comma,
    LParen,
    RParen,
    LBrace,
    RBrace,
    EOF,
}

impl View for Token {
    type V = TokenView;

    open spec fn view(&self) -> TokenView {
        match self {
            Token::Int => TokenView::Int,
            Token::Char => TokenView::Char,
            Token::Return => TokenView::Return,
            Token::If => TokenView::If,
            Token::Else => TokenView::Else,
            Token::While => TokenView::While,
            Token::Ident(s) => TokenView::Ident(s@),
            Token::Num(n) => TokenView::Num(*n),
            Token::Plus => TokenView::Plus,
            Token::Minus => TokenView::Minus,
            Token::Mul => TokenView::Mul,
            Token::Div => TokenView::Div,
            Token::Assign => TokenView::Assign,
            Token::Eq => TokenView::Eq,
            Token::Ne => TokenView::Ne,
            Token::Lt => TokenView::Lt,
            Token::Gt => TokenView::Gt,
            Token::Le => TokenView::Le,
            Token::Ge => TokenView::Ge,
            Token::Semicolon => TokenView::Semicolon,
            Token::Comma => TokenView::Comma,
            Token::LParen => TokenView::LParen,
            Token::RParen => TokenView::RParen,
            Token::LBrace => TokenView::LBrace,
            Token::RBrace => TokenView::RBrace,
            Token::EOF => TokenView::EOF,
        }
    }
}

/// The views of a sequence of tokens.
pub open spec fn tokens_view(ts: Seq<Token>) -> Seq<TokenView> {
    ts.map_values(|t: Token| t@)
}

/// Whether two tokens are equal: same variant, same identifier text, same
/// number.
pub fn same_token(a: &Token, b: &Token) -> (r: bool)
    ensures
        r == (a@ == b@),
{
    match (a, b) {
        (Token::Int, Token::Int) => true,
        (Token::Char, Token::Char) => true,
        (Token::Return, Token::Return) => true,
        (Token::If, Token::If) => true,
        (Token::Else, Token::Else) => true,
        (Token::While, Token::While) => true,
        (Token::Ident(x), Token::Ident(y)) => x.eq(y),
        (Token::Num(x), Token::Num(y)) => *x == *y,
        (Token::Plus, Token::Plus) => true,
        (Token::Minus, Token::Minus) => true,
        (Token::Mul, Token::Mul) => true,
        (Token::Div, Token::Div) => true,
        (Token::Assign, Token::Assign) => true,
        (Token::Eq, Token::Eq) => true,
        (Token::Ne, Token::Ne) => true,
        (Token::Lt, Token::Lt) => true,
        (Token::Gt, Token::Gt) => true,
        (Token::Le, Token::Le) => true,
        (Token::Ge, Token::Ge) => true,
        (Token::Semicolon, Token::Semicolon) => true,
        (Token::Comma, Token::Comma) => true,
        (Token::LParen, Token::LParen) => true,
        (Token::RParen, Token::RParen) => true,
        (Token::LBrace, Token::LBrace) => true,
        (Token::RBrace, Token::RBrace) => true,
        (Token::EOF, Token::EOF) => true,
        _ => false,
    }
}

impl PartialEq for Token {
    fn eq(&self, other: &Self) -> (r: bool) {
        same_token(self, other)
    }
}

impl vstd::std_specs::cmp::PartialEqSpecImpl for Token {
    open spec fn obeys_eq_spec() -> bool {
        true
    }

    open spec fn eq_spec(&self, other: &Self) -> bool {
        self@ == other@
    }
}

/// The `Debug` text of a token, as `{:?}` prints it: the variant's name, and
/// for `Ident` and `Num` the field in parentheses.
pub open spec fn token_text(t: TokenView) -> Seq<char> {
    match t {
        TokenView::Int => "Int"@,
        TokenView::Char => "Char"@,
        TokenView::Return => "Return"@,
        TokenView::If => "If"@,
        TokenView::Else => "Else"@,
        TokenView::While => "While"@,
        TokenView::Ident(s) => "Ident("@ + debug_quoted(s) + ")"@,
        TokenView::Num(n) => "Num("@ + decimal_text(n) + ")"@,
        TokenView::Plus => "Plus"@,
        TokenView::Minus => "Minus"@,
        TokenView::Mul => "Mul"@,
        TokenView::Div => "Div"@,
        TokenView::Assign => "Assign"@,
        TokenView::Eq => "Eq"@,
        TokenView::Ne => "Ne"@,
        TokenView::Lt => "Lt"@,
        TokenView::Gt => "Gt"@,
        TokenView::Le => "Le"@,
        TokenView::Ge => "Ge"@,
        TokenView::Semicolon => "Semicolon"@,
        TokenView::Comma => "Comma"@,
        TokenView::LParen => "LParen"@,
        TokenView::RParen => "RParen"@,
        TokenView::LBrace => "LBrace"@,
        TokenView::RBrace => "RBrace"@,
        TokenView::EOF => "EOF"@,
    }
}

/// Appends the `Debug` text of a token to `out`.
pub fn push_token_text(out: &mut String, t: &Token)
    ensures
        final(out)@ == old(out)@ + token_text(t@),
{
    match t {
        Token::Int => out.append("Int"),
        Token::Char => out.append("Char"),
        Token::Return => out.append("Return"),
        Token::If => out.append("If"),
        Token::Else => out.append("Else"),
        Token::While => out.append("While"),
        Token::Ident(s) => {
            out.append("Ident(");
            let q = debug_string(s);
            out.append(q.as_str());
            out.append(")");
            assert(final(out)@ =~= old(out)@ + token_text(t@));
        },
        Token::Num(n) => {
            out.append("Num(");
            push_decimal(out, *n);
            out.append(")");
            assert(final(out)@ =~= old(out)@ + token_text(t@));
        },
        Token::Plus => out.append("Plus"),
        Token::Minus => out.append("Minus"),
        Token::Mul => out.append("Mul"),
        Token::Div => out.append("Div"),
        Token::Assign => out.append("Assign"),
        Token::Eq => out.append("Eq"),
        Token::Ne => out.append("Ne"),
        Token::Lt => out.append("Lt"),
        Token::Gt => out.append("Gt"),
        Token::Le => out.append("Le"),
        Token::Ge => out.append("Ge"),
        Token::Semicolon => out.append("Semicolon"),
        Token::Comma => out.append("Comma"),
        Token::LParen => out.append("LParen"),
        Token::RParen => out.append("RParen"),
        Token::LBrace => out.append("LBrace"),
        Token::RBrace => out.append("RBrace"),
        Token::EOF => out.append("EOF"),
    }
}

pub type LexResult = Result<Vec<Token>, String>;

/// Characters skipped between tokens.
pub open spec fn is_space(c: char) -> bool {
    c == ' ' || c == '\t' || c == '\n' || c == '\r'
}

/// `char::is_digit(10)`: the ASCII digits.
pub open spec fn is_digit(c: char) -> bool {
    '0' <= c && c <= '9'
}

/// The characters that start an identifier or keyword.
pub open spec fn starts_word(c: char) -> bool {
    ('a' <= c && c <= 'z') || ('A' <= c && c <= 'Z') || c == '_'
}

/// The characters that continue an identifier or keyword: `_` and the
/// alphanumeric characters (among ASCII characters, the letters and digits).
pub open spec fn continues_word(c: char) -> bool {
    if (c as u32) < 128 {
        is_ascii_alphanumeric(c) || c == '_'
    } else {
        char_is_alphanumeric(c)
    }
}

/// The end of the run of digits that starts at `i`.
pub open spec fn scan_digits(s: Seq<char>, i: int) -> int
    decreases s.len() - i,
{
    if 0 <= i < s.len() && is_digit(s[i]) {
        scan_digits(s, i + 1)
    } else {
        i
    }
}

/// The end of the run of word characters that starts at `i`.
pub open spec fn scan_word(s: Seq<char>, i: int) -> int
    decreases s.len() - i,
{
    if 0 <= i < s.len() && continues_word(s[i]) {
        scan_word(s, i + 1)
    } else {
        i
    }
}

/// The position of the first newline at or after `i`, or the end of `s`.
pub open spec fn scan_line(s: Seq<char>, i: int) -> int
    decreases s.len() - i,
{
    if 0 <= i < s.len() && s[i] != '\n' {
        scan_line(s, i + 1)
    } else {
        i
    }
}

pub proof fn lemma_scan_digits_bounds(s: Seq<char>, i: int)
    requires
        0 <= i <= s.len(),
    ensures
        i <= scan_digits(s, i) <= s.len(),
        forall|k: int| i <= k < scan_digits(s, i) ==> is_digit(#[trigger] s[k]),
        scan_digits(s, i) < s.len() ==> !is_digit(s[scan_digits(s, i)]),
    decreases s.len() - i,
{
    if i < s.len() && is_digit(s[i]) {
        lemma_scan_digits_bounds(s, i + 1);
    }
}

pub proof fn lemma_scan_word_bounds(s: Seq<char>, i: int)
    requires
        0 <= i <= s.len(),
    ensures
        i <= scan_word(s, i) <= s.len(),
    decreases s.len() - i,
{
    if i < s.len() && continues_word(s[i]) {
        lemma_scan_word_bounds(s, i + 1);
    }
}

pub proof fn lemma_scan_line_bounds(s: Seq<char>, i: int)
    requires
        0 <= i <= s.len(),
    ensures
        i <= scan_line(s, i) <= s.len(),
    decreases s.len() - i,
{
    if i < s.len() && s[i] != '\n' {
        lemma_scan_line_bounds(s, i + 1);
    }
}

/// The numeric value of an ASCII digit.
pub open spec fn digit_value(c: char) -> int {
    (c as int) - ('0' as int)
}

/// The value of a string of decimal digits, most significant first.
pub open spec fn decimal_value(d: Seq<char>) -> int
    decreases d.len(),
{
    if d.len() == 0 {
        0
    } else {
        decimal_value(d.drop_last()) * 10 + digit_value(d.last())
    }
}

/// The keyword token spelled by `w`, if `w` is a keyword.
pub open spec fn keyword(w: Seq<char>) -> Option<TokenView> {
    if w == seq!['i', 'n', 't'] {
        Some(TokenView::Int)
    } else if w == seq!['c', 'h', 'a', 'r'] {
        Some(TokenView::Char)
    } else if w == seq!['r', 'e', 't', 'u', 'r', 'n'] {
        Some(TokenView::Return)
    } else if w == seq!['i', 'f'] {
        Some(TokenView::If)
    } else if w == seq!['e', 'l', 's', 'e'] {
        Some(TokenView::Else)
    } else if w == seq!['w', 'h', 'i', 'l', 'e'] {
        Some(TokenView::While)
    } else {
        None
    }
}

/// The token of a word: its keyword, or else an identifier.
pub open spec fn word_token(w: Seq<char>) -> TokenView {
    match keyword(w) {
        Some(k) => k,
        None => TokenView::Ident(w),
    }
}

/// The message of a decimal literal too large for `i64`.
pub open spec fn too_large_message() -> Seq<char> {
    "number too large to fit in target type"@
}

/// Puts a token in front of the tokens of the rest of the input.
pub open spec fn cons(t: TokenView, rest: Result<Seq<TokenView>, Seq<char>>) -> Result<
    Seq<TokenView>,
    Seq<char>,
> {
    match rest {
        Ok(ts) => Ok(seq![t] + ts),
        Err(e) => Err(e),
    }
}

/// Puts already produced tokens in front of the tokens of the rest.
pub open spec fn join(done: Seq<TokenView>, rest: Result<Seq<TokenView>, Seq<char>>) -> Result<
    Seq<TokenView>,
    Seq<char>,
> {
    match rest {
        Ok(ts) => Ok(done + ts),
        Err(e) => Err(e),
    }
}

/// Tokenizes `s` from position `i` on: the tokens (ending with `EOF`), or the
/// message of the first lexical error.
pub open spec fn lex_from(s: Seq<char>, i: int) -> Result<Seq<TokenView>, Seq<char>>
    decreases s.len() - i,
{
    if i < 0 || i >= s.len() {
        Ok(seq![TokenView::EOF])
    } else {
        let c = s[i];
        let next_is_eq = i + 1 < s.len() && s[i + 1] == '=';
        if is_space(c) {
            lex_from(s, i + 1)
        } else if is_digit(c) {
            let j = scan_digits(s, i + 1);
            proof {
                lemma_scan_digits_bounds(s, i + 1);
            }
            let v = decimal_value(s.subrange(i, j));
            if v > i64::MAX {
                Err(too_large_message())
            } else {
                cons(TokenView::Num(v as i64), lex_from(s, j))
            }
        } else if starts_word(c) {
            let j = scan_word(s, i + 1);
            proof {
                lemma_scan_word_bounds(s, i + 1);
            }
            cons(word_token(s.subrange(i, j)), lex_from(s, j))
        } else if c == '+' {
            cons(TokenView::Plus, lex_from(s, i + 1))
        } else if c == '-' {
            cons(TokenView::Minus, lex_from(s, i + 1))
        } else if c == '*' {
            cons(TokenView::Mul, lex_from(s, i + 1))
        } else if c == '/' {
            if i + 1 < s.len() && s[i + 1] == '/' {
                let k = scan_line(s, i + 1);
                proof {
                    lemma_scan_line_bounds(s, i + 1);
                }
                lex_from(s, k)
            } else {
                cons(TokenView::Div, lex_from(s, i + 1))
            }
        } else if c == '=' {
            if next_is_eq {
                cons(TokenView::Eq, lex_from(s, i + 2))
            } else {
                cons(TokenView::Assign, lex_from(s, i + 1))
            }
        } else if c == '!' {
            if next_is_eq {
                cons(TokenView::Ne, lex_from(s, i + 2))
            } else {
                Err("Unexpected '!'"@)
            }
        } else if c == '<' {
            if next_is_eq {
                cons(TokenView::Le, lex_from(s, i + 2))
            } else {
                cons(TokenView::Lt, lex_from(s, i + 1))
            }
        } else if c == '>' {
            if next_is_eq {
                cons(TokenView::Ge, lex_from(s, i + 2))
            } else {
                cons(TokenView::Gt, lex_from(s, i + 1))
            }
        } else if c == ';' {
            cons(TokenView::Semicolon, lex_from(s, i + 1))
        } else if c == ',' {
            cons(TokenView::Comma, lex_from(s, i + 1))
        } else if c == '(' {
            cons(TokenView::LParen, lex_from(s, i + 1))
        } else if c == ')' {
            cons(TokenView::RParen, lex_from(s, i + 1))
        } else if c == '{' {
            cons(TokenView::LBrace, lex_from(s, i + 1))
        } else if c == '}' {
            cons(TokenView::RBrace, lex_from(s, i + 1))
        } else {
            Err("Unexpected character: "@.push(c))
        }
    }
}

/// What `tokenize` returns for a source text.
pub open spec fn lex(s: Seq<char>) -> Result<Seq<TokenView>, Seq<char>> {
    lex_from(s, 0)
}

/// The view of a lexer result.
pub open spec fn lex_result_view(r: LexResult) -> Result<Seq<TokenView>, Seq<char>> {
    match r {
        Ok(ts) => Ok(tokens_view(ts@)),
        Err(e) => Err(e@),
    }
}

proof fn lemma_join_cons(done: Seq<TokenView>, t: TokenView, rest: Result<Seq<TokenView>, Seq<char>>)
    ensures
        join(done, cons(t, rest)) == join(done.push(t), rest),
{
    match rest {
        Ok(ts) => {
            assert(done + (seq![t] + ts) =~= done.push(t) + ts);
        },
        Err(e) => {},
    }
}

/// A token sequence that ends with `EOF` and holds no other `EOF`.
pub open spec fn single_eof_at_end(ts: Seq<TokenView>) -> bool {
    &&& ts.len() >= 1
    &&& ts.last() == TokenView::EOF
    &&& forall|k: int| 0 <= k < ts.len() - 1 ==> ts[k] != TokenView::EOF
}

proof fn lemma_cons_keeps_single_eof(t: TokenView, rest: Result<Seq<TokenView>, Seq<char>>)
    requires
        t != TokenView::EOF,
        rest matches Ok(ts) ==> single_eof_at_end(ts),
    ensures
        cons(t, rest) matches Ok(ts) ==> single_eof_at_end(ts),
{
    if let Ok(ts) = rest {
        let all = seq![t] + ts;
        assert forall|k: int| 0 <= k < all.len() - 1 implies all[k] != TokenView::EOF by {
            if k > 0 {
                assert(all[k] == ts[k - 1]);
            }
        }
    }
}

/// Lexing from any position yields, when it succeeds, tokens that end with
/// `EOF` and hold no other `EOF`.
pub proof fn lemma_lex_from_single_eof(s: Seq<char>, i: int)
    ensures
        lex_from(s, i) matches Ok(ts) ==> single_eof_at_end(ts),
    decreases s.len() - i,
{
    if 0 <= i < s.len() {
        let c = s[i];
        if is_space(c) {
            lemma_lex_from_single_eof(s, i + 1);
        } else if is_digit(c) {
            lemma_scan_digits_bounds(s, i + 1);
            let j = scan_digits(s, i + 1);
            lemma_lex_from_single_eof(s, j);
            let v = decimal_value(s.subrange(i, j));
            lemma_cons_keeps_single_eof(TokenView::Num(v as i64), lex_from(s, j));
        } else if starts_word(c) {
            lemma_scan_word_bounds(s, i + 1);
            let j = scan_word(s, i + 1);
            lemma_lex_from_single_eof(s, j);
            lemma_cons_keeps_single_eof(word_token(s.subrange(i, j)), lex_from(s, j));
        } else if c == '/' && i + 1 < s.len() && s[i + 1] == '/' {
            lemma_scan_line_bounds(s, i + 1);
            lemma_lex_from_single_eof(s, scan_line(s, i + 1));
        } else {
            lemma_lex_from_single_eof(s, i + 1);
            lemma_cons_keeps_single_eof(TokenView::Plus, lex_from(s, i + 1));
            lemma_cons_keeps_single_eof(TokenView::Minus, lex_from(s, i + 1));
            lemma_cons_keeps_single_eof(TokenView::Mul, lex_from(s, i + 1));
            lemma_cons_keeps_single_eof(TokenView::Div, lex_from(s, i + 1));
            lemma_cons_keeps_single_eof(TokenView::Assign, lex_from(s, i + 1));
            lemma_cons_keeps_single_eof(TokenView::Lt, lex_from(s, i + 1));
            lemma_cons_keeps_single_eof(TokenView::Gt, lex_from(s, i + 1));
            lemma_cons_keeps_single_eof(TokenView::Semicolon, lex_from(s, i + 1));
            lemma_cons_keeps_single_eof(TokenView::Comma, lex_from(s, i + 1));
            lemma_cons_keeps_single_eof(TokenView::LParen, lex_from(s, i + 1));
            lemma_cons_keeps_single_eof(TokenView::RParen, lex_from(s, i + 1));
            lemma_cons_keeps_single_eof(TokenView::LBrace, lex_from(s, i + 1));
            lemma_cons_keeps_single_eof(TokenView::RBrace, lex_from(s, i + 1));
            if i + 2 <= s.len() {
                lemma_lex_from_single_eof(s, i + 2);
                lemma_cons_keeps_single_eof(TokenView::Eq, lex_from(s, i + 2));
                lemma_cons_keeps_single_eof(TokenView::Ne, lex_from(s, i + 2));
                lemma_cons_keeps_single_eof(TokenView::Le, lex_from(s, i + 2));
                lemma_cons_keeps_single_eof(TokenView::Ge, lex_from(s, i + 2));
            }
        }
    }
}

/// Every successful tokenization ends with `EOF`, and `EOF` occurs nowhere
/// else in it.
pub proof fn tokens_end_with_single_eof(source: Seq<char>)
    ensures
        lex(source) matches Ok(ts) ==> single_eof_at_end(ts),
{
    lemma_lex_from_single_eof(source, 0);
}

fn is_word_char(c: char) -> (r: bool)
    ensures
        r == continues_word(c),
{
    is_alphanumeric(c) || c == '_'
}

/// Whether `chars[i..j]` spells `w`.
fn spells(chars: &Vec<char>, i: usize, j: usize, w: &str) -> (r: bool)
    requires
        i <= j <= chars@.len(),
    ensures
        r == (chars@.subrange(i as int, j as int) == w@),
{
    let n = w.unicode_len();
    if j - i != n {
        return false;
    }
    let mut k: usize = 0;
    while k < n
        invariant
            n == w@.len(),
            j - i == n,
            i <= j <= chars@.len(),
            k <= n,
            forall|m: int| 0 <= m < k ==> chars@[i + m] == w@[m],
        decreases n - k,
    {
        if chars[i + k] != w.get_char(k) {
            assert(chars@.subrange(i as int, j as int)[k as int] != w@[k as int]);
            return false;
        }
        k += 1;
    }
    assert(chars@.subrange(i as int, j as int) =~= w@);
    true
}

/// The token of the word `chars[i..j]`, whose text is `text`.
fn word_to_token(chars: &Vec<char>, i: usize, j: usize, text: String) -> (t: Token)
    requires
        i <= j <= chars@.len(),
        text@ == chars@.subrange(i as int, j as int),
    ensures
        t@ == word_token(chars@.subrange(i as int, j as int)),
{
    let ghost w = chars@.subrange(i as int, j as int);
    proof {
        reveal_strlit("int");
        reveal_strlit("char");
        reveal_strlit("return");
        reveal_strlit("if");
        reveal_strlit("else");
        reveal_strlit("while");
        assert("int"@ =~= seq!['i', 'n', 't']);
        assert("char"@ =~= seq!['c', 'h', 'a', 'r']);
        assert("return"@ =~= seq!['r', 'e', 't', 'u', 'r', 'n']);
        assert("if"@ =~= seq!['i', 'f']);
        assert("else"@ =~= seq!['e', 'l', 's', 'e']);
        assert("while"@ =~= seq!['w', 'h', 'i', 'l', 'e']);
    }
    if spells(chars, i, j, "int") {
        Token::Int
    } else if spells(chars, i, j, "char") {
        Token::Char
    } else if spells(chars, i, j, "return") {
        Token::Return
    } else if spells(chars, i, j, "if") {
        Token::If
    } else if spells(chars, i, j, "else") {
        Token::Else
    } else if spells(chars, i, j, "while") {
        Token::While
    } else {
        Token::Ident(text)
    }
}

/// Tokenizes the input C source code into a vector of tokens.
///
/// On success the tokens are those of `lex(source@)`, ending with `EOF`; on
/// failure the message is that of the first lexical error: an unexpected
/// character, a lone `!`, or a literal too large for `i64`.
pub fn tokenize(source: &str) -> (r: LexResult)
    ensures
        lex_result_view(r) == lex(source@),
{
    let chars = chars_of(source);
    let n = chars.len();
    let ghost s = chars@;
    let mut tokens: Vec<Token> = Vec::new();
    let mut i: usize = 0;
    while i < n
        invariant
            s == chars@,
            s == source@,
            n == s.len(),
            i <= n,
            lex(s) == join(tokens_view(tokens@), lex_from(s, i as int)),
        decreases n - i,
    {
        let c = chars[i];
        let ghost before = tokens_view(tokens@);
        if c == ' ' || c == '\t' || c == '\n' || c == '\r' {
            i += 1;
        } else if '0' <= c && c <= '9' {
            let start = i;
            let mut value: i64 = 0;
            let mut too_large = false;
            proof {
                lemma_scan_digits_bounds(s, start + 1);
            }
            while i < n && '0' <= chars[i] && chars[i] <= '9'
                invariant
                    s == chars@,
                    n == s.len(),
                    start < n,
                    is_digit(s[start as int]),
                    start <= i <= n,
                    i == start || scan_digits(s, start + 1) == scan_digits(s, i as int),
                    i == start ==> value == 0 && !too_large,
                    forall|k: int| start <= k < i ==> is_digit(#[trigger] s[k]),
                    !too_large ==> value == decimal_value(s.subrange(start as int, i as int)),
                    too_large ==> decimal_value(s.subrange(start as int, i as int)) > i64::MAX,
                    0 <= value,
                decreases n - i,
            {
                let d = (chars[i] as u32 - 48) as i64;
                let ghost old_digits = s.subrange(start as int, i as int);
                let ghost new_digits = s.subrange(start as int, i + 1);
                assert(new_digits.drop_last() =~= old_digits);
                assert(decimal_value(new_digits) == decimal_value(old_digits) * 10 + d);
                if !too_large {
                    if value > (i64::MAX - d) / 10 {
                        too_large = true;
                    } else {
                        value = value * 10 + d;
                    }
                }
                i += 1;
            }
            let ghost digits = s.subrange(start as int, i as int);
            assert(i == scan_digits(s, start + 1));
            if too_large {
                assert(lex_from(s, start as int) == Err::<Seq<TokenView>, Seq<char>>(too_large_message()));
                return Err(String::from_str("number too large to fit in target type"));
            }
            tokens.push(Token::Num(value));
            proof {
                lemma_join_cons(before, TokenView::Num(value), lex_from(s, i as int));
                assert(tokens_view(tokens@) =~= before.push(TokenView::Num(value)));
            }
        } else if ('a' <= c && c <= 'z') || ('A' <= c && c <= 'Z') || c == '_' {
            let start = i;
            let mut ident = String::new();
            push_char(&mut ident, c);
            i += 1;
            proof {
                lemma_scan_word_bounds(s, start + 1);
                assert(ident@ =~= s.subrange(start as int, i as int));
            }
            while i < n && is_word_char(chars[i])
                invariant
                    s == chars@,
                    n == s.len(),
                    start < i <= n,
                    scan_word(s, start + 1) == scan_word(s, i as int),
                    ident@ == s.subrange(start as int, i as int),
                decreases n - i,
            {
                push_char(&mut ident, chars[i]);
                i += 1;
                assert(ident@ =~= s.subrange(start as int, i as int));
            }
            let t = word_to_token(&chars, start, i, ident);
            tokens.push(t);
            proof {
                lemma_join_cons(before, t@, lex_from(s, i as int));
                assert(tokens_view(tokens@) =~= before.push(t@));
            }
        } else if c == '/' && i + 1 < n && chars[i + 1] == '/' {
            i += 1;
            let ghost first = i;
            proof {
                lemma_scan_line_bounds(s, i as int);
            }
            while i < n && chars[i] != '\n'
                invariant
                    s == chars@,
                    n == s.len(),
                    0 < i <= n,
                    scan_line(s, i as int) == scan_line(s, first as int),
                decreases n - i,
            {
                i += 1;
            }
        } else if c == '!' && !(i + 1 < n && chars[i + 1] == '=') {
            return Err(String::from_str("Unexpected '!'"));
        } else {
            let two = i + 1 < n && chars[i + 1] == '=';
            let (t, width): (Token, usize) = if c == '+' {
                (Token::Plus, 1)
            } else if c == '-' {
                (Token::Minus, 1)
            } else if c == '*' {
                (Token::Mul, 1)
            } else if c == '/' {
                (Token::Div, 1)
            } else if c == '=' {
                if two {
                    (Token::Eq, 2)
                } else {
                    (Token::Assign, 1)
                }
            } else if c == '!' {
                (Token::Ne, 2)
            } else if c == '<' {
                if two {
                    (Token::Le, 2)
                } else {
                    (Token::Lt, 1)
                }
            } else if c == '>' {
                if two {
                    (Token::Ge, 2)
                } else {
                    (Token::Gt, 1)
                }
            } else if c == ';' {
                (Token::Semicolon, 1)
            } else if c == ',' {
                (Token::Comma, 1)
            } else if c == '(' {
                (Token::LParen, 1)
            } else if c == ')' {
                (Token::RParen, 1)
            } else if c == '{' {
                (Token::LBrace, 1)
            } else if c == '}' {
                (Token::RBrace, 1)
            } else {
                let mut msg = String::from_str("Unexpected character: ");
                push_char(&mut msg, c);
                assert(lex_from(s, i as int) == Err::<Seq<TokenView>, Seq<char>>(msg@));
                return Err(msg);
            };
            i += width;
            tokens.push(t);
            proof {
                lemma_join_cons(before, t@, lex_from(s, i as int));
                assert(tokens_view(tokens@) =~= before.push(t@));
            }
        }
    }
    let ghost done = tokens_view(tokens@);
    tokens.push(Token::EOF);
    proof {
        assert(tokens_view(tokens@) =~= done + seq![TokenView::EOF]);
    }
    Ok(tokens)
}

} // verus!
