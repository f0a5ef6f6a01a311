//! Tokens written out in C, separated by spaces, tokenize back to
//! themselves.

use vstd::prelude::*;
use crate::lexer::{
    TokenView, lex, lex_from, cons, is_space, is_digit, starts_word, continues_word, scan_digits,
    scan_word, decimal_value, digit_value, keyword, word_token,
};
use crate::text::{natural_digits, digit_char};

verus! {

/// The C text of a token: a keyword, an identifier's name, a number's
/// decimal digits, or an operator or punctuation mark.
pub open spec fn spell(t: TokenView) -> Seq<char> {
    match t {
        TokenView::Int => seq!['i', 'n', 't'],
        TokenView::Char => seq!['c', 'h', 'a', 'r'],
        TokenView::Return => seq!['r', 'e', 't', 'u', 'r', 'n'],
        TokenView::If => seq!['i', 'f'],
        TokenView::Else => seq!['e', 'l', 's', 'e'],
        TokenView::While => seq!['w', 'h', 'i', 'l', 'e'],
        TokenView::Ident(x) => x,
        TokenView::Num(n) => natural_digits(n as nat),
        TokenView::Plus => seq!['+'],
        TokenView::Minus => seq!['-'],
        TokenView::Mul => seq!['*'],
        TokenView::Div => seq!['/'],
        TokenView::Assign => seq!['='],
        TokenView::Eq => seq!['=', '='],
        TokenView::Ne => seq!['!', '='],
        TokenView::Lt => seq!['<'],
        TokenView::Gt => seq!['>'],
        TokenView::Le => seq!['<', '='],
        TokenView::Ge => seq!['>', '='],
        TokenView::Semicolon => seq![';'],
        TokenView::Comma => seq![','],
        TokenView::LParen => seq!['('],
        TokenView::RParen => seq![')'],
        TokenView::LBrace => seq!['{'],
        TokenView::RBrace => seq!['}'],
        TokenView::EOF => Seq::empty(),
    }
}

/// The texts of tokens, one space between two.
pub open spec fn spelled(ts: Seq<TokenView>) -> Seq<char>
    decreases ts.len(),
{
    if ts.len() == 0 {
        Seq::empty()
    } else if ts.len() == 1 {
        spell(ts[0])
    } else {
        spell(ts[0]) + seq![' '] + spelled(ts.drop_first())
    }
}

/// A token the lexer can produce, other than `EOF`: a number is not
/// negative; an identifier is a nonempty ASCII word that starts with a
/// letter or `_` and is no keyword.
pub open spec fn spellable(t: TokenView) -> bool {
    match t {
        TokenView::EOF => false,
        TokenView::Num(n) => n >= 0,
        TokenView::Ident(x) => {
            &&& x.len() > 0
            &&& starts_word(x[0])
            &&& forall|i: int| 1 <= i < x.len() ==> (x[i] as u32) < 128 && continues_word(
                #[trigger] x[i],
            )
            &&& keyword(x) is None
        },
        _ => true,
    }
}

proof fn lemma_digits(m: nat)
    ensures
        natural_digits(m).len() >= 1,
        decimal_value(natural_digits(m)) == m,
        forall|i: int| 0 <= i < natural_digits(m).len() ==> is_digit(#[trigger] natural_digits(m)[i]),
    decreases m,
{
    if m < 10 {
        let c = digit_char(m as int);
        assert(c as int == m + 48);
        assert(('0' as int) == 48);
        assert(natural_digits(m) == seq![c]);
        assert(natural_digits(m).drop_last() =~= Seq::<char>::empty());
        assert(decimal_value(Seq::<char>::empty()) == 0);
        assert(digit_value(c) == m);
    } else {
        lemma_digits(m / 10);
        let d = natural_digits(m / 10);
        let c = digit_char((m % 10) as int);
        assert(c as int == m % 10 + 48);
        assert(('0' as int) == 48);
        assert(digit_value(c) == m % 10);
        assert(natural_digits(m).drop_last() =~= d);
        assert(m == (m / 10) * 10 + m % 10) by (nonlinear_arith);
        assert forall|i: int| 0 <= i < natural_digits(m).len() implies is_digit(
            #[trigger] natural_digits(m)[i],
        ) by {
            if i < d.len() {
                assert(natural_digits(m)[i] == d[i]);
            }
        }
    }
}

proof fn lemma_scan_digits_over(d: Seq<char>, tail: Seq<char>, i: int)
    requires
        0 <= i <= d.len(),
        forall|k: int| 0 <= k < d.len() ==> is_digit(#[trigger] d[k]),
        tail.len() == 0 || !is_digit(tail[0]),
    ensures
        scan_digits(d + tail, i) == d.len(),
    decreases d.len() - i,
{
    if i < d.len() {
        assert((d + tail)[i] == d[i]);
        lemma_scan_digits_over(d, tail, i + 1);
    } else if tail.len() > 0 {
        assert((d + tail)[i] == tail[0]);
    }
}

proof fn lemma_scan_word_over(x: Seq<char>, tail: Seq<char>, i: int)
    requires
        1 <= i <= x.len(),
        forall|k: int| 1 <= k < x.len() ==> continues_word(#[trigger] x[k]),
        tail.len() == 0 || !continues_word(tail[0]),
    ensures
        scan_word(x + tail, i) == x.len(),
    decreases x.len() - i,
{
    if i < x.len() {
        assert((x + tail)[i] == x[i]);
        lemma_scan_word_over(x, tail, i + 1);
    } else if tail.len() > 0 {
        assert((x + tail)[i] == tail[0]);
    }
}

/// A word (a keyword or an identifier) followed by a space or the end.
proof fn lemma_word_then(x: Seq<char>, tail: Seq<char>)
    requires
        x.len() > 0,
        starts_word(x[0]),
        forall|k: int| 1 <= k < x.len() ==> continues_word(#[trigger] x[k]),
        tail.len() == 0 || !continues_word(tail[0]),
    ensures
        lex_from(x + tail, 0) == cons(word_token(x), lex_from(x + tail, x.len() as int)),
{
    assert((x + tail)[0] == x[0]);
    lemma_scan_word_over(x, tail, 1);
    assert((x + tail).subrange(0, x.len() as int) =~= x);
}

/// A token's text followed by a space or the end tokenizes to the token,
/// then what follows its text.
proof fn lemma_token_then(t: TokenView, tail: Seq<char>)
    requires
        spellable(t),
        tail.len() == 0 || tail[0] == ' ',
    ensures
        lex_from(spell(t) + tail, 0) == cons(t, lex_from(spell(t) + tail, spell(t).len() as int)),
{
    let w = spell(t);
    let s = w + tail;
    if w.len() >= 1 {
        assert(s[0] == w[0]);
    }
    if w.len() >= 2 {
        assert(s[1] == w[1]);
    } else if tail.len() > 0 {
        assert(s[w.len() as int] == tail[0]);
    }
    match t {
        TokenView::Num(n) => {
            lemma_digits(n as nat);
            assert(is_digit(w[0]));
            lemma_scan_digits_over(w, tail, 1);
            assert(s.subrange(0, w.len() as int) =~= w);
        },
        TokenView::Ident(x) => {
            lemma_word_then(x, tail);
        },
        TokenView::Int | TokenView::Char | TokenView::Return | TokenView::If | TokenView::Else
        | TokenView::While => {
            assert forall|k: int| 1 <= k < w.len() implies continues_word(#[trigger] w[k]) by {}
            lemma_word_then(w, tail);
        },
        _ => {},
    }
}

/// Tokens that the lexer can produce, other than `EOF`, written out in C
/// with one space between two, tokenize back to themselves followed by
/// `EOF`.
pub proof fn spelled_tokens_lex_back(ts: Seq<TokenView>)
    requires
        forall|i: int| 0 <= i < ts.len() ==> spellable(#[trigger] ts[i]),
    ensures
        lex(spelled(ts)) == Ok::<Seq<TokenView>, Seq<char>>(ts.push(TokenView::EOF)),
    decreases ts.len(),
{
    if ts.len() == 0 {
        assert(ts.push(TokenView::EOF) =~= seq![TokenView::EOF]);
    } else if ts.len() == 1 {
        let t = ts[0];
        lemma_token_then(t, Seq::empty());
        assert(spell(t) + Seq::<char>::empty() =~= spell(t));
        assert(ts.push(TokenView::EOF) =~= seq![t] + seq![TokenView::EOF]);
    } else {
        let t = ts[0];
        let rest = ts.drop_first();
        assert forall|i: int| 0 <= i < rest.len() implies spellable(#[trigger] rest[i]) by {
            assert(rest[i] == ts[i + 1]);
        }
        spelled_tokens_lex_back(rest);
        let tail = seq![' '] + spelled(rest);
        assert(spelled(ts) =~= spell(t) + tail);
        lemma_token_then(t, tail);
        let p = spell(t) + seq![' '];
        assert(spell(t) + tail =~= p + spelled(rest));
        assert((spell(t) + tail)[spell(t).len() as int] == ' ');
        crate::spacing::lemma_lex_shift(p, spelled(rest), 0);
        assert(ts.push(TokenView::EOF) =~= seq![t] + rest.push(TokenView::EOF));
    }
}

/// A decimal number is one `Num` token, whatever text `b` follows it that
/// does not start with a digit.
pub proof fn numbers_lex_whatever_follows(n: i64, b: Seq<char>)
    requires
        n >= 0,
        b.len() == 0 || !is_digit(b[0]),
    ensures
        lex(natural_digits(n as nat) + b) == cons(TokenView::Num(n), lex(b)),
{
    let w = natural_digits(n as nat);
    lemma_digits(n as nat);
    assert((w + b)[0] == w[0]);
    lemma_scan_digits_over(w, b, 1);
    assert((w + b).subrange(0, w.len() as int) =~= w);
    crate::spacing::lemma_lex_shift(w, b, 0);
}

/// An identifier (an ASCII word that starts with a letter or `_` and is no
/// keyword) is one `Ident` token, and a keyword its keyword token, whatever
/// text `b` follows that does not continue the word.
pub proof fn words_lex_whatever_follows(x: Seq<char>, b: Seq<char>)
    requires
        b.len() == 0 || !continues_word(b[0]),
    ensures
        spellable(TokenView::Ident(x)) ==> lex(x + b) == cons(TokenView::Ident(x), lex(b)),
        lex(seq!['i', 'n', 't'] + b) == cons(TokenView::Int, lex(b)),
        lex(seq!['c', 'h', 'a', 'r'] + b) == cons(TokenView::Char, lex(b)),
        lex(seq!['r', 'e', 't', 'u', 'r', 'n'] + b) == cons(TokenView::Return, lex(b)),
        lex(seq!['i', 'f'] + b) == cons(TokenView::If, lex(b)),
        lex(seq!['e', 'l', 's', 'e'] + b) == cons(TokenView::Else, lex(b)),
        lex(seq!['w', 'h', 'i', 'l', 'e'] + b) == cons(TokenView::While, lex(b)),
{
    if spellable(TokenView::Ident(x)) {
        lemma_word_then(x, b);
        crate::spacing::lemma_lex_shift(x, b, 0);
    }
    let kws = seq![
        TokenView::Int,
        TokenView::Char,
        TokenView::Return,
        TokenView::If,
        TokenView::Else,
        TokenView::While,
    ];
    assert forall|i: int| 0 <= i < kws.len() implies lex(spell(#[trigger] kws[i]) + b) == cons(
        kws[i],
        lex(b),
    ) by {
        let w = spell(kws[i]);
        assert forall|k: int| 1 <= k < w.len() implies continues_word(#[trigger] w[k]) by {}
        lemma_word_then(w, b);
        crate::spacing::lemma_lex_shift(w, b, 0);
    }
    assert(kws[0] == TokenView::Int);
    assert(kws[1] == TokenView::Char);
    assert(kws[2] == TokenView::Return);
    assert(kws[3] == TokenView::If);
    assert(kws[4] == TokenView::Else);
    assert(kws[5] == TokenView::While);
}

} // verus!
