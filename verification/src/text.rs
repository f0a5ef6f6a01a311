//! Character classes and string building used by the lexer, the parser's
//! diagnostics and the virtual machine's error messages.

use vstd::prelude::*;

verus! {

/// Whether `char::is_alphanumeric` holds of a character (Unicode `Alphabetic`
/// or `Numeric`).
pub uninterp spec fn char_is_alphanumeric(c: char) -> bool;

/// What `format!("{:?}", s)` produces for a string with contents `s`: the
/// string in double quotes, with the escapes of `char::escape_debug`.
pub uninterp spec fn debug_quoted(s: Seq<char>) -> Seq<char>;

/// An ASCII letter or an ASCII decimal digit.
pub open spec fn is_ascii_alphanumeric(c: char) -> bool {
    ('a' <= c && c <= 'z') || ('A' <= c && c <= 'Z') || ('0' <= c && c <= '9')
}

/// Calls `char::is_alphanumeric`. The contract claims that the result is a
/// function of the character, and, as the standard library documents, that
/// on ASCII characters it holds exactly of letters and digits. What it is on
/// other characters (the Unicode tables) is left unsaid.
#[verifier::external_body]
pub(crate) fn is_alphanumeric(c: char) -> (r: bool)
    ensures
        r == char_is_alphanumeric(c),
        (c as u32) < 128 ==> (r == is_ascii_alphanumeric(c)),
{
    c.is_alphanumeric()
}

/// Calls `String::push`: the contract claims that the character is appended
/// to the string.
#[verifier::external_body]
pub(crate) fn push_char(s: &mut String, c: char)
    ensures
        final(s)@ == old(s)@.push(c),
{
    s.push(c);
}

/// Formats a string with `{:?}` (its `Debug` form). The contract claims
/// that the result is a function of the string's contents and, as the
/// standard library documents, that a string of ASCII letters, digits and
/// `_` comes out unchanged between double quotes. The escaping rules of
/// `char::escape_debug` for other characters are left unsaid.
#[verifier::external_body]
pub(crate) fn debug_string(s: &String) -> (r: String)
    ensures
        r@ == debug_quoted(s@),
        (forall|i: int| 0 <= i < s@.len() ==> is_ascii_alphanumeric(#[trigger] s@[i]) || s@[i] == '_')
            ==> r@ == seq!['"'] + s@ + seq!['"'],
{
    format!("{:?}", s)
}

/// Copies the characters of a string slice into a vector.
pub fn chars_of(source: &str) -> (r: Vec<char>)
    ensures
        r@ == source@,
{
    let mut out: Vec<char> = Vec::new();
    for c in it: source.chars()
        invariant
            out@ == it.seq().take(it.index() as int),
            it.seq() == source@,
    {
        out.push(c);
    }
    out
}

/// The character of a decimal digit `0..=9`.
pub open spec fn digit_char(d: int) -> char {
    ((d + 48) as u32) as char
}

/// The decimal digits of a natural number, most significant first, without
/// leading zeros (zero is `"0"`).
pub open spec fn natural_digits(m: nat) -> Seq<char>
    decreases m,
{
    if m < 10 {
        seq![digit_char(m as int)]
    } else {
        natural_digits(m / 10).push(digit_char((m % 10) as int))
    }
}

/// How an `i64` is written by `{}` and `{:?}`: a minus sign for negative
/// numbers, then the decimal digits of the magnitude.
pub open spec fn decimal_text(n: i64) -> Seq<char> {
    if n < 0 {
        seq!['-'] + natural_digits((-(n as int)) as nat)
    } else {
        natural_digits(n as nat)
    }
}

fn digit_to_char(d: u64) -> (c: char)
    requires
        d < 10,
    ensures
        c == digit_char(d as int),
{
    let r = if d == 0 {
        '0'
    } else if d == 1 {
        '1'
    } else if d == 2 {
        '2'
    } else if d == 3 {
        '3'
    } else if d == 4 {
        '4'
    } else if d == 5 {
        '5'
    } else if d == 6 {
        '6'
    } else if d == 7 {
        '7'
    } else if d == 8 {
        '8'
    } else {
        '9'
    };
    r
}

fn push_natural(out: &mut String, m: u64)
    ensures
        final(out)@ == old(out)@ + natural_digits(m as nat),
    decreases m,
{
    if m >= 10 {
        push_natural(out, m / 10);
    }
    let c = digit_to_char(m % 10);
    push_char(out, c);
    assert(final(out)@ =~= old(out)@ + natural_digits(m as nat));
}

/// Appends the decimal text of `n` to `out`.
pub fn push_decimal(out: &mut String, n: i64)
    ensures
        final(out)@ == old(out)@ + decimal_text(n),
{
    if n < 0 {
        push_char(out, '-');
        let magnitude: u64 = if n == i64::MIN {
            9223372036854775808u64
        } else {
            (-n) as u64
        };
        push_natural(out, magnitude);
        assert(final(out)@ =~= old(out)@ + decimal_text(n));
    } else {
        push_natural(out, n as u64);
    }
}

} // verus!
