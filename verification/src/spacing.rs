//! Whitespace around a source text does not change its tokens.

use vstd::prelude::*;
use crate::lexer::{
    TokenView, lex, lex_from, is_space, is_digit, starts_word, continues_word, scan_digits,
    scan_word, scan_line, lemma_scan_digits_bounds, lemma_scan_word_bounds, lemma_scan_line_bounds,
};

verus! {

/// Every character of `w` is whitespace.
pub open spec fn all_space(w: Seq<char>) -> bool {
    forall|i: int| 0 <= i < w.len() ==> is_space(#[trigger] w[i])
}

proof fn lemma_scan_digits_shift(p: Seq<char>, u: Seq<char>, i: int)
    requires
        0 <= i <= u.len(),
    ensures
        scan_digits(p + u, p.len() + i) == p.len() + scan_digits(u, i),
    decreases u.len() - i,
{
    if i < u.len() {
        assert((p + u)[p.len() + i] == u[i]);
        lemma_scan_digits_shift(p, u, i + 1);
    }
}

proof fn lemma_scan_word_shift(p: Seq<char>, u: Seq<char>, i: int)
    requires
        0 <= i <= u.len(),
    ensures
        scan_word(p + u, p.len() + i) == p.len() + scan_word(u, i),
    decreases u.len() - i,
{
    if i < u.len() {
        assert((p + u)[p.len() + i] == u[i]);
        lemma_scan_word_shift(p, u, i + 1);
    }
}

proof fn lemma_scan_line_shift(p: Seq<char>, u: Seq<char>, i: int)
    requires
        0 <= i <= u.len(),
    ensures
        scan_line(p + u, p.len() + i) == p.len() + scan_line(u, i),
    decreases u.len() - i,
{
    if i < u.len() {
        assert((p + u)[p.len() + i] == u[i]);
        lemma_scan_line_shift(p, u, i + 1);
    }
}

/// Tokenizing from a position depends only on the text from there on.
pub(crate) proof fn lemma_lex_shift(p: Seq<char>, u: Seq<char>, i: int)
    requires
        0 <= i <= u.len(),
    ensures
        lex_from(p + u, p.len() + i) == lex_from(u, i),
    decreases u.len() - i,
{
    let s = p + u;
    let k = p.len() + i;
    if i < u.len() {
        let c = u[i];
        assert(s[k] == c);
        if i + 1 < u.len() {
            assert(s[k + 1] == u[i + 1]);
        }
        if is_space(c) {
            lemma_lex_shift(p, u, i + 1);
        } else if is_digit(c) {
            lemma_scan_digits_bounds(u, i + 1);
            lemma_scan_digits_shift(p, u, i + 1);
            let j = scan_digits(u, i + 1);
            assert(s.subrange(k, p.len() + j) =~= u.subrange(i, j));
            lemma_lex_shift(p, u, j);
        } else if starts_word(c) {
            lemma_scan_word_bounds(u, i + 1);
            lemma_scan_word_shift(p, u, i + 1);
            let j = scan_word(u, i + 1);
            assert(s.subrange(k, p.len() + j) =~= u.subrange(i, j));
            lemma_lex_shift(p, u, j);
        } else if c == '/' && i + 1 < u.len() && u[i + 1] == '/' {
            lemma_scan_line_bounds(u, i + 1);
            lemma_scan_line_shift(p, u, i + 1);
            lemma_lex_shift(p, u, scan_line(u, i + 1));
        } else if (c == '=' || c == '!' || c == '<' || c == '>') && i + 1 < u.len() && u[i + 1]
            == '=' {
            lemma_lex_shift(p, u, i + 2);
        } else {
            lemma_lex_shift(p, u, i + 1);
        }
    }
}

/// From any position within a run of whitespace that ends the text, the
/// tokens are `EOF` alone.
proof fn lemma_lex_trailing_space(s: Seq<char>, w: Seq<char>, k: int)
    requires
        all_space(w),
        s.len() <= k <= s.len() + w.len(),
    ensures
        lex_from(s + w, k) == Ok::<Seq<TokenView>, Seq<char>>(seq![TokenView::EOF]),
    decreases s.len() + w.len() - k,
{
    if k < s.len() + w.len() {
        assert((s + w)[k] == w[k - s.len()]);
        lemma_lex_trailing_space(s, w, k + 1);
    }
}

proof fn lemma_scan_digits_trailing(s: Seq<char>, w: Seq<char>, i: int)
    requires
        all_space(w),
        0 <= i <= s.len(),
    ensures
        scan_digits(s + w, i) == scan_digits(s, i),
    decreases s.len() - i,
{
    if i < s.len() {
        assert((s + w)[i] == s[i]);
        lemma_scan_digits_trailing(s, w, i + 1);
    } else if w.len() > 0 {
        assert((s + w)[i] == w[0]);
    }
}

proof fn lemma_scan_word_trailing(s: Seq<char>, w: Seq<char>, i: int)
    requires
        all_space(w),
        0 <= i <= s.len(),
    ensures
        scan_word(s + w, i) == scan_word(s, i),
    decreases s.len() - i,
{
    if i < s.len() {
        assert((s + w)[i] == s[i]);
        lemma_scan_word_trailing(s, w, i + 1);
    } else if w.len() > 0 {
        assert((s + w)[i] == w[0]);
        assert(!continues_word(w[0]));
    }
}

proof fn lemma_scan_line_trailing(s: Seq<char>, w: Seq<char>, i: int)
    requires
        all_space(w),
        0 <= i <= s.len(),
    ensures
        scan_line(s, i) < s.len() ==> scan_line(s + w, i) == scan_line(s, i),
        scan_line(s, i) == s.len() ==> s.len() <= scan_line(s + w, i) <= s.len() + w.len(),
    decreases s.len() - i,
{
    lemma_scan_line_bounds(s, i);
    if i < s.len() {
        assert((s + w)[i] == s[i]);
        lemma_scan_line_trailing(s, w, i + 1);
    } else {
        lemma_scan_line_bounds(s + w, i);
    }
}

/// Tokenizing a text followed by whitespace, from a position within the
/// text, gives what tokenizing the text alone gives.
proof fn lemma_lex_trailing(s: Seq<char>, w: Seq<char>, i: int)
    requires
        all_space(w),
        0 <= i <= s.len(),
    ensures
        lex_from(s + w, i) == lex_from(s, i),
    decreases s.len() - i,
{
    let t = s + w;
    if i == s.len() {
        lemma_lex_trailing_space(s, w, i);
    } else {
        let c = s[i];
        assert(t[i] == c);
        if i + 1 < s.len() {
            assert(t[i + 1] == s[i + 1]);
        } else if w.len() > 0 {
            assert(t[i + 1] == w[0]);
        }
        if is_space(c) {
            lemma_lex_trailing(s, w, i + 1);
        } else if is_digit(c) {
            lemma_scan_digits_bounds(s, i + 1);
            lemma_scan_digits_trailing(s, w, i + 1);
            let j = scan_digits(s, i + 1);
            assert(t.subrange(i, j) =~= s.subrange(i, j));
            lemma_lex_trailing(s, w, j);
        } else if starts_word(c) {
            lemma_scan_word_bounds(s, i + 1);
            lemma_scan_word_trailing(s, w, i + 1);
            let j = scan_word(s, i + 1);
            assert(t.subrange(i, j) =~= s.subrange(i, j));
            lemma_lex_trailing(s, w, j);
        } else if c == '/' && i + 1 < s.len() && s[i + 1] == '/' {
            lemma_scan_line_bounds(s, i + 1);
            lemma_scan_line_trailing(s, w, i + 1);
            let j = scan_line(s, i + 1);
            if j < s.len() {
                lemma_lex_trailing(s, w, j);
            } else {
                lemma_lex_trailing_space(s, w, scan_line(t, i + 1));
                assert(lex_from(s, j) == Ok::<Seq<TokenView>, Seq<char>>(seq![TokenView::EOF]));
            }
        } else if (c == '=' || c == '!' || c == '<' || c == '>') && i + 1 < s.len() && s[i + 1]
            == '=' {
            lemma_lex_trailing(s, w, i + 2);
        } else {
            lemma_lex_trailing(s, w, i + 1);
        }
    }
}

proof fn lemma_lex_leading_space(w: Seq<char>, s: Seq<char>, k: int)
    requires
        all_space(w),
        0 <= k <= w.len(),
    ensures
        lex_from(w + s, k) == lex_from(w + s, w.len() as int),
    decreases w.len() - k,
{
    if k < w.len() {
        assert((w + s)[k] == w[k]);
        lemma_lex_leading_space(w, s, k + 1);
    }
}

/// Whitespace before or after a source text does not change its tokens,
/// nor the error in it: where `w` is only spaces, tabs and line breaks,
/// `w + s` and `s + w` tokenize as `s` does.
pub proof fn surrounding_whitespace_is_ignored(w: Seq<char>, s: Seq<char>)
    requires
        all_space(w),
    ensures
        lex(w + s) == lex(s),
        lex(s + w) == lex(s),
{
    lemma_lex_leading_space(w, s, 0);
    lemma_lex_shift(w, s, 0);
    lemma_lex_trailing(s, w, 0);
}

} // verus!
