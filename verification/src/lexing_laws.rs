//! Laws of the lexer on pieces of text: texts that end with a line break
//! tokenize apart, a `-` is always `Minus`, and a `//` comment runs to the
//! end of its line.

use vstd::prelude::*;
use crate::lexer::{
    TokenView, lex, lex_from, cons, is_space, is_digit, starts_word, continues_word, scan_digits,
    scan_word, scan_line, lemma_scan_digits_bounds, lemma_scan_word_bounds, lemma_scan_line_bounds,
    lemma_lex_from_single_eof,
};
use crate::spacing::lemma_lex_shift;

verus! {

/// The tokens of two texts one after the other: those of the first without
/// its `EOF`, then those of the second; or the first error.
pub open spec fn then_lex(
    r1: Result<Seq<TokenView>, Seq<char>>,
    r2: Result<Seq<TokenView>, Seq<char>>,
) -> Result<Seq<TokenView>, Seq<char>> {
    match r1 {
        Ok(t1) => match r2 {
            Ok(t2) => Ok(t1.drop_last() + t2),
            Err(e) => Err(e),
        },
        Err(e) => Err(e),
    }
}

/// A text after which the next text starts a new token: it is empty or ends
/// with a line break.
pub open spec fn ends_line(a: Seq<char>) -> bool {
    a.len() == 0 || a.last() == '\n'
}

proof fn lemma_cons_then(t: TokenView, r: Result<Seq<TokenView>, Seq<char>>, u: Result<Seq<TokenView>, Seq<char>>)
    requires
        r matches Ok(ts) ==> ts.len() >= 1,
    ensures
        then_lex(cons(t, r), u) == cons(t, then_lex(r, u)),
{
    if let Ok(ts) = r {
        if let Ok(tu) = u {
            assert((seq![t] + ts).drop_last() + tu =~= seq![t] + (ts.drop_last() + tu));
        }
    }
}

proof fn lemma_scan_digits_in(a: Seq<char>, u: Seq<char>, k: int)
    requires
        a.len() > 0,
        a.last() == '\n',
        0 <= k < a.len(),
    ensures
        scan_digits(a + u, k) == scan_digits(a, k),
        scan_digits(a, k) < a.len(),
    decreases a.len() - k,
{
    assert((a + u)[k] == a[k]);
    if is_digit(a[k]) {
        lemma_scan_digits_in(a, u, k + 1);
    }
}

proof fn lemma_scan_word_in(a: Seq<char>, u: Seq<char>, k: int)
    requires
        a.len() > 0,
        a.last() == '\n',
        0 <= k < a.len(),
    ensures
        scan_word(a + u, k) == scan_word(a, k),
        scan_word(a, k) < a.len(),
    decreases a.len() - k,
{
    assert((a + u)[k] == a[k]);
    if continues_word(a[k]) {
        lemma_scan_word_in(a, u, k + 1);
    }
}

proof fn lemma_scan_line_in(a: Seq<char>, u: Seq<char>, k: int)
    requires
        a.len() > 0,
        a.last() == '\n',
        0 <= k < a.len(),
    ensures
        scan_line(a + u, k) == scan_line(a, k),
        scan_line(a, k) < a.len(),
    decreases a.len() - k,
{
    assert((a + u)[k] == a[k]);
    if a[k] != '\n' {
        lemma_scan_line_in(a, u, k + 1);
    }
}

/// Tokenizing `a + u` from a position in `a`, where `a` ends with a line
/// break, gives the tokens of `a` from there, then those of `u`.
proof fn lemma_lex_concat(a: Seq<char>, u: Seq<char>, i: int)
    requires
        a.len() > 0,
        a.last() == '\n',
        0 <= i <= a.len(),
    ensures
        lex_from(a + u, i) == then_lex(lex_from(a, i), lex(u)),
    decreases a.len() - i,
{
    let s = a + u;
    if i == a.len() {
        lemma_lex_shift(a, u, 0);
        if let Ok(tu) = lex(u) {
            assert(seq![TokenView::EOF].drop_last() + tu =~= tu);
        }
    } else {
        let c = a[i];
        assert(s[i] == c);
        if i + 1 < a.len() {
            assert(s[i + 1] == a[i + 1]);
        }
        if is_space(c) {
            lemma_lex_concat(a, u, i + 1);
        } else if is_digit(c) {
            lemma_scan_digits_bounds(a, i + 1);
            lemma_scan_digits_in(a, u, i + 1);
            let j = scan_digits(a, i + 1);
            assert(s.subrange(i, j) =~= a.subrange(i, j));
            lemma_lex_concat(a, u, j);
            lemma_lex_from_single_eof(a, j);
            lemma_cons_then(
                TokenView::Num(crate::lexer::decimal_value(a.subrange(i, j)) as i64),
                lex_from(a, j),
                lex(u),
            );
        } else if starts_word(c) {
            lemma_scan_word_bounds(a, i + 1);
            lemma_scan_word_in(a, u, i + 1);
            let j = scan_word(a, i + 1);
            assert(s.subrange(i, j) =~= a.subrange(i, j));
            lemma_lex_concat(a, u, j);
            lemma_lex_from_single_eof(a, j);
            lemma_cons_then(crate::lexer::word_token(a.subrange(i, j)), lex_from(a, j), lex(u));
        } else if c == '/' && a[i + 1] == '/' {
            lemma_scan_line_bounds(a, i + 1);
            lemma_scan_line_in(a, u, i + 1);
            lemma_lex_concat(a, u, scan_line(a, i + 1));
        } else {
            let two = (c == '=' || c == '!' || c == '<' || c == '>') && a[i + 1] == '=';
            let j = if two {
                i + 2
            } else {
                i + 1
            };
            lemma_lex_concat(a, u, j);
            lemma_lex_from_single_eof(a, j);
            let t = if c == '+' {
                TokenView::Plus
            } else if c == '-' {
                TokenView::Minus
            } else if c == '*' {
                TokenView::Mul
            } else if c == '/' {
                TokenView::Div
            } else if c == '=' && two {
                TokenView::Eq
            } else if c == '=' {
                TokenView::Assign
            } else if c == '!' {
                TokenView::Ne
            } else if c == '<' && two {
                TokenView::Le
            } else if c == '<' {
                TokenView::Lt
            } else if c == '>' && two {
                TokenView::Ge
            } else if c == '>' {
                TokenView::Gt
            } else if c == ';' {
                TokenView::Semicolon
            } else if c == ',' {
                TokenView::Comma
            } else if c == '(' {
                TokenView::LParen
            } else if c == ')' {
                TokenView::RParen
            } else if c == '{' {
                TokenView::LBrace
            } else {
                TokenView::RBrace
            };
            lemma_cons_then(t, lex_from(a, j), lex(u));
        }
    }
}

/// Texts that end with a line break tokenize apart: where `a` is empty or
/// ends with `\n`, `a + u` gives the tokens of `a` (without its `EOF`), then
/// those of `u`; or the first error.
pub proof fn line_ended_texts_tokenize_apart(a: Seq<char>, u: Seq<char>)
    requires
        ends_line(a),
    ensures
        lex(a + u) == then_lex(lex(a), lex(u)),
{
    if a.len() == 0 {
        assert(a + u =~= u);
        if let Ok(tu) = lex(u) {
            assert(seq![TokenView::EOF].drop_last() + tu =~= tu);
        }
    } else {
        lemma_lex_concat(a, u, 0);
    }
}

/// A `-` is always the token `Minus`, whatever follows it: `-` then a text
/// `b` tokenizes to `Minus` then the tokens of `b`; and after a text `a` that
/// is empty or ends with a line break, to the tokens of `a`, `Minus`, then
/// those of `b`.
pub proof fn minus_is_always_minus(a: Seq<char>, b: Seq<char>)
    requires
        ends_line(a),
    ensures
        lex(seq!['-'] + b) == cons(TokenView::Minus, lex(b)),
        lex(a + seq!['-'] + b) == then_lex(lex(a), cons(TokenView::Minus, lex(b))),
{
    let u = seq!['-'] + b;
    assert(u[0] == '-');
    lemma_lex_shift(seq!['-'], b, 0);
    assert(lex_from(u, 1) == lex(b));
    assert(a + seq!['-'] + b =~= a + u);
    line_ended_texts_tokenize_apart(a, u);
}

proof fn lemma_scan_comment(c: Seq<char>, rest: Seq<char>, k: int)
    requires
        forall|i: int| 0 <= i < c.len() ==> c[i] != '\n',
        0 <= k <= c.len(),
    ensures
        scan_line(c + seq!['\n'] + rest, k) == c.len(),
    decreases c.len() - k,
{
    let s = c + seq!['\n'] + rest;
    if k < c.len() {
        assert(s[k] == c[k]);
        lemma_scan_comment(c, rest, k + 1);
    } else {
        assert(s[k] == '\n');
    }
}

/// A `//` comment runs to the end of its line, whatever it holds: for a text
/// `c` without a line break, `a + "//" + c + "\n" + b` tokenizes as
/// `a + "\n" + b`, where `a` is empty or ends with a line break.
pub proof fn comments_run_to_the_end_of_the_line(a: Seq<char>, c: Seq<char>, b: Seq<char>)
    requires
        ends_line(a),
        forall|i: int| 0 <= i < c.len() ==> c[i] != '\n',
    ensures
        lex(a + seq!['/', '/'] + c + seq!['\n'] + b) == lex(a + seq!['\n'] + b),
        lex(seq!['/', '/'] + c + seq!['\n'] + b) == lex(b),
{
    let p = seq!['/', '/'] + c + seq!['\n'];
    let u = p + b;
    assert(u[0] == '/' && u[1] == '/');
    let c2 = seq!['/', '/'] + c;
    assert(u =~= c2 + seq!['\n'] + b);
    assert forall|i: int| 0 <= i < c2.len() implies c2[i] != '\n' by {
        if i >= 2 {
            assert(c2[i] == c[i - 2]);
        }
    }
    lemma_scan_comment(c2, b, 1);
    assert(scan_line(u, 1) == c.len() + 2);
    assert(u[c.len() + 2int] == '\n');
    lemma_lex_shift(p, b, 0);
    assert(lex_from(u, c.len() + 3int) == lex(b));
    assert(lex_from(u, c.len() + 2int) == lex_from(u, c.len() + 3int));
    assert(lex_from(u, 0) == lex_from(u, scan_line(u, 1)));
    assert(lex(u) == lex(b));
    let v = seq!['\n'] + b;
    assert(v[0] == '\n');
    lemma_lex_shift(seq!['\n'], b, 0);
    assert(lex(v) == lex(b));
    assert(a + seq!['/', '/'] + c + seq!['\n'] + b =~= a + u);
    assert(a + seq!['\n'] + b =~= a + v);
    line_ended_texts_tokenize_apart(a, u);
    line_ended_texts_tokenize_apart(a, v);
}

proof fn lemma_first_char(c: char, b: Seq<char>)
    ensures
        (seq![c] + b)[0] == c,
        (seq![c] + b).len() == b.len() + 1,
        b.len() > 0 ==> (seq![c] + b)[1] == b[0],
        lex_from(seq![c] + b, 1) == lex(b),
{
    lemma_lex_shift(seq![c], b, 0);
    if b.len() > 0 {
        assert((seq![c] + b)[1] == b[0]);
    }
}

proof fn lemma_first_two(c1: char, c2: char, b: Seq<char>)
    ensures
        (seq![c1, c2] + b)[0] == c1,
        (seq![c1, c2] + b)[1] == c2,
        lex_from(seq![c1, c2] + b, 2) == lex(b),
{
    lemma_lex_shift(seq![c1, c2], b, 0);
}

/// Each operator and punctuation character is one token, whatever text `b`
/// follows it; `=`, `!`, `<` and `>` followed by `=` make one two-character
/// token, `!` without `=` is an error, and a `/` not followed by `/` is
/// `Div`.
pub proof fn operators_lex_whatever_follows(b: Seq<char>)
    ensures
        lex(seq!['+'] + b) == cons(TokenView::Plus, lex(b)),
        lex(seq!['-'] + b) == cons(TokenView::Minus, lex(b)),
        lex(seq!['*'] + b) == cons(TokenView::Mul, lex(b)),
        lex(seq![';'] + b) == cons(TokenView::Semicolon, lex(b)),
        lex(seq![','] + b) == cons(TokenView::Comma, lex(b)),
        lex(seq!['('] + b) == cons(TokenView::LParen, lex(b)),
        lex(seq![')'] + b) == cons(TokenView::RParen, lex(b)),
        lex(seq!['{'] + b) == cons(TokenView::LBrace, lex(b)),
        lex(seq!['}'] + b) == cons(TokenView::RBrace, lex(b)),
        lex(seq!['=', '='] + b) == cons(TokenView::Eq, lex(b)),
        lex(seq!['!', '='] + b) == cons(TokenView::Ne, lex(b)),
        lex(seq!['<', '='] + b) == cons(TokenView::Le, lex(b)),
        lex(seq!['>', '='] + b) == cons(TokenView::Ge, lex(b)),
        b.len() == 0 || b[0] != '=' ==> lex(seq!['='] + b) == cons(TokenView::Assign, lex(b)),
        b.len() == 0 || b[0] != '=' ==> lex(seq!['<'] + b) == cons(TokenView::Lt, lex(b)),
        b.len() == 0 || b[0] != '=' ==> lex(seq!['>'] + b) == cons(TokenView::Gt, lex(b)),
        b.len() == 0 || b[0] != '=' ==> lex(seq!['!'] + b) == Err::<Seq<TokenView>, Seq<char>>(
            "Unexpected '!'"@,
        ),
        b.len() == 0 || b[0] != '/' ==> lex(seq!['/'] + b) == cons(TokenView::Div, lex(b)),
        lex(seq![' '] + b) == lex(b),
        lex(seq!['\n'] + b) == lex(b),
        lex(seq!['\t'] + b) == lex(b),
        lex(seq!['\r'] + b) == lex(b),
{
    lemma_first_char('+', b);
    lemma_first_char('-', b);
    lemma_first_char('*', b);
    lemma_first_char(';', b);
    lemma_first_char(',', b);
    lemma_first_char('(', b);
    lemma_first_char(')', b);
    lemma_first_char('{', b);
    lemma_first_char('}', b);
    lemma_first_char('=', b);
    lemma_first_char('<', b);
    lemma_first_char('>', b);
    lemma_first_char('!', b);
    lemma_first_char('/', b);
    lemma_first_char(' ', b);
    lemma_first_char('\n', b);
    lemma_first_char('\t', b);
    lemma_first_char('\r', b);
    lemma_first_two('=', '=', b);
    lemma_first_two('!', '=', b);
    lemma_first_two('<', '=', b);
    lemma_first_two('>', '=', b);
}

} // verus!
