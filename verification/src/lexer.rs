//! The lexical analyzer: converts source text into a pull-based sequence of
//! tokens, including decoded literal values.
//!
//! The token language, in priority order at each position:
//! - whitespace is skipped;
//! - string literals start at `"` and decode escapes: `\` followed by a radix
//!   letter followed by at least one digit valid in that radix greedily
//!   consumes all following digits valid in that radix and appends the code
//!   point they denote; `\` followed by anything else is that character;
//! - numeric literals: an optional leading `-`; a literal containing `.` is a
//!   float and keeps its text; a leading `0` followed by a radix letter
//!   selects a non-decimal base; otherwise a decimal integer;
//! - identifiers start with a letter or `_`; the keywords `data`, `global`,
//!   `export`, `return` and `fn` are their own tokens;
//! - operators and punctuation, longer symbols before shorter prefixes
//!   (`**` before `*`, `==` before `=`).
//!
//! The module defines the mathematical lexer ([`spec_next`]) over the source
//! as a `Seq<char>`, and the executable cursor [`Lexer`] proved to produce
//! exactly those tokens.

use vstd::prelude::*;

verus! {

use vstd::std_specs::iter::IteratorSpec;
use vstd::utf8::is_scalar;

/// One lexical token. Literal variants carry their decoded value; a float
/// literal keeps its source text, whose numeric reading is left to clients.
/// `Error` marks text that no token class matches.
#[derive(Debug, PartialEq)]
pub enum Token {
    Data,
    Global,
    Export,
    Return,
    Fn,
    Equals,
    OpenParen,
    CloseParen,
    OpenBrace,
    CloseBrace,
    OpenBracket,
    CloseBracket,
    Semicolon,
    Comma,
    Op(String),
    Str(String),
    Float(String),
    Integer(i64),
    Ident(String),
    Error,
}

/// The mathematical view of a token: text payloads become `Seq<char>`.
pub enum TokenV {
    Data,
    Global,
    Export,
    Return,
    Fn,
    Equals,
    OpenParen,
    CloseParen,
    OpenBrace,
    CloseBrace,
    OpenBracket,
    CloseBracket,
    Semicolon,
    Comma,
    Op(Seq<char>),
    Str(Seq<char>),
    Float(Seq<char>),
    Integer(i64),
    Ident(Seq<char>),
    Error,
}

impl View for Token {
    type V = TokenV;

    open spec fn view(&self) -> TokenV {
        match self {
            Token::Data => TokenV::Data,
            Token::Global => TokenV::Global,
            Token::Export => TokenV::Export,
            Token::Return => TokenV::Return,
            Token::Fn => TokenV::Fn,
            Token::Equals => TokenV::Equals,
            Token::OpenParen => TokenV::OpenParen,
            Token::CloseParen => TokenV::CloseParen,
            Token::OpenBrace => TokenV::OpenBrace,
            Token::CloseBrace => TokenV::CloseBrace,
            Token::OpenBracket => TokenV::OpenBracket,
            Token::CloseBracket => TokenV::CloseBracket,
            Token::Semicolon => TokenV::Semicolon,
            Token::Comma => TokenV::Comma,
            Token::Op(s) => TokenV::Op(s@),
            Token::Str(s) => TokenV::Str(s@),
            Token::Float(s) => TokenV::Float(s@),
            Token::Integer(n) => TokenV::Integer(*n),
            Token::Ident(s) => TokenV::Ident(s@),
            Token::Error => TokenV::Error,
        }
    }
}

/// Whitespace skipped between tokens.
pub open spec fn is_space(c: char) -> bool {
    c == ' ' || c == '\t' || c == '\n' || c == '\r' || c == '\u{b}' || c == '\u{c}'
}

/// A decimal digit.
pub open spec fn is_digit(c: char) -> bool {
    '0' as int <= c as int <= '9' as int
}

/// A character that may start an identifier.
pub open spec fn is_ident_start(c: char) -> bool {
    c == '_' || ('a' as int <= c as int <= 'z' as int) || (
    'A' as int <= c as int <= 'Z' as int)
}

/// A character that may continue an identifier.
pub open spec fn is_ident_char(c: char) -> bool {
    is_ident_start(c) || is_digit(c)
}

/// The base selected by a radix letter after a leading `0`, from the fixed
/// table; `None` for any other character.
pub open spec fn radix_of(c: char) -> Option<u32> {
    match c {
        'b' => Some(2u32),
        't' => Some(3u32),
        'q' => Some(4u32),
        'p' => Some(5u32),
        'h' => Some(6u32),
        's' => Some(7u32),
        'o' => Some(8u32),
        'e' => Some(9u32),
        'd' => Some(10u32),
        'l' => Some(11u32),
        'z' => Some(12u32),
        'x' => Some(16u32),
        _ => None,
    }
}

/// Numeric value of a character read as a digit (letters case-insensitive
/// from 10 up); 99 for characters that are digits in no base.
pub open spec fn digit_val(c: char) -> int {
    if is_digit(c) {
        c as int - '0' as int
    } else if 'a' as int <= c as int <= 'z' as int {
        c as int - 'a' as int + 10
    } else if 'A' as int <= c as int <= 'Z' as int {
        c as int - 'A' as int + 10
    } else {
        99
    }
}

/// A digit valid in base `r`.
pub open spec fn is_digit_in(c: char, r: int) -> bool {
    digit_val(c) < r
}

/// First position at or after `i` holding a non-whitespace character.
pub open spec fn skip_ws(s: Seq<char>, i: int) -> int
    decreases s.len() - i
        when 0 <= i <= s.len()
{
    if i < s.len() && is_space(s[i]) {
        skip_ws(s, i + 1)
    } else {
        i
    }
}

/// End of the maximal run of digits valid in base `r` starting at `i`.
pub open spec fn run_end(s: Seq<char>, i: int, r: int) -> int
    decreases s.len() - i
        when 0 <= i <= s.len()
{
    if i < s.len() && is_digit_in(s[i], r) {
        run_end(s, i + 1, r)
    } else {
        i
    }
}

/// End of the maximal run of identifier characters starting at `i`.
pub open spec fn ident_end(s: Seq<char>, i: int) -> int
    decreases s.len() - i
        when 0 <= i <= s.len()
{
    if i < s.len() && is_ident_char(s[i]) {
        ident_end(s, i + 1)
    } else {
        i
    }
}

/// End of the maximal run of non-whitespace characters starting at `i`.
pub open spec fn nonspace_end(s: Seq<char>, i: int) -> int
    decreases s.len() - i
        when 0 <= i <= s.len()
{
    if i < s.len() && !is_space(s[i]) {
        nonspace_end(s, i + 1)
    } else {
        i
    }
}

/// Value of the digits `s[i..j]` read in base `r`, most significant first.
pub open spec fn int_of_digits(s: Seq<char>, i: int, j: int, r: int) -> int
    decreases j - i
        when i <= j
{
    if i < j {
        int_of_digits(s, i, j - 1, r) * r + digit_val(s[j - 1])
    } else {
        0
    }
}

/// Every character of `s[i..j]` is a digit valid in base `r`.
pub open spec fn all_digits_in(s: Seq<char>, i: int, j: int, r: int) -> bool {
    forall|k: int| i <= k < j ==> is_digit_in(#[trigger] s[k], r)
}

pub proof fn lemma_skip_ws_bounds(s: Seq<char>, i: int)
    requires
        0 <= i <= s.len(),
    ensures
        i <= skip_ws(s, i) <= s.len(),
        skip_ws(s, i) < s.len() ==> !is_space(s[skip_ws(s, i)]),
        forall|k: int| i <= k < skip_ws(s, i) ==> is_space(#[trigger] s[k]),
    decreases s.len() - i,
{
    if i < s.len() && is_space(s[i]) {
        lemma_skip_ws_bounds(s, i + 1);
    }
}

pub proof fn lemma_run_end_bounds(s: Seq<char>, i: int, r: int)
    requires
        0 <= i <= s.len(),
    ensures
        i <= run_end(s, i, r) <= s.len(),
        run_end(s, i, r) < s.len() ==> !is_digit_in(s[run_end(s, i, r)], r),
        all_digits_in(s, i, run_end(s, i, r), r),
    decreases s.len() - i,
{
    if i < s.len() && is_digit_in(s[i], r) {
        lemma_run_end_bounds(s, i + 1, r);
    }
}

pub proof fn lemma_ident_end_bounds(s: Seq<char>, i: int)
    requires
        0 <= i <= s.len(),
    ensures
        i <= ident_end(s, i) <= s.len(),
        ident_end(s, i) < s.len() ==> !is_ident_char(s[ident_end(s, i)]),
        forall|k: int| i <= k < ident_end(s, i) ==> is_ident_char(#[trigger] s[k]),
    decreases s.len() - i,
{
    if i < s.len() && is_ident_char(s[i]) {
        lemma_ident_end_bounds(s, i + 1);
    }
}

pub proof fn lemma_nonspace_end_bounds(s: Seq<char>, i: int)
    requires
        0 <= i <= s.len(),
    ensures
        i <= nonspace_end(s, i) <= s.len(),
    decreases s.len() - i,
{
    if i < s.len() && !is_space(s[i]) {
        lemma_nonspace_end_bounds(s, i + 1);
    }
}

/// Reading more digits never decreases the value.
pub proof fn lemma_int_of_digits_mono(s: Seq<char>, i: int, j: int, k: int, r: int)
    requires
        i <= j <= k,
        r >= 1,
    ensures
        0 <= int_of_digits(s, i, j, r) <= int_of_digits(s, i, k, r),
    decreases k - i, k - j,
{
    if i < k {
        if j < k {
            lemma_int_of_digits_mono(s, i, j, k - 1, r);
            let v = int_of_digits(s, i, k - 1, r);
            assert(int_of_digits(s, i, k, r) == v * r + digit_val(s[k - 1]));
            assert(v * r >= v * 1 == v) by (nonlinear_arith)
                requires
                    r >= 1,
                    v >= 0,
            ;
        } else {
            lemma_int_of_digits_mono(s, i, i, j - 1, r);
            let v = int_of_digits(s, i, j - 1, r);
            assert(v * r >= v * 1 >= 0) by (nonlinear_arith)
                requires
                    r >= 1,
                    v >= 0,
            ;
        }
    }
}

/// Scan of a string literal body from position `i` (just past the opening
/// `"`), with `acc` the characters decoded so far. Yields the decoded
/// contents and the position just past the closing quote, or `None` for a
/// missing closing quote, an escape cut off by end of input, an escape value
/// above `u32::MAX`, or one that is no valid code point.
pub open spec fn scan_string(s: Seq<char>, i: int, acc: Seq<char>) -> Option<(Seq<char>, int)>
    decreases s.len() - i
        when 0 <= i <= s.len()
        via scan_string_decreases
{
    if i >= s.len() {
        None
    } else if s[i] == '"' {
        Some((acc, i + 1))
    } else if s[i] == '\\' {
        if i + 1 >= s.len() {
            None
        } else {
            let h = s[i + 1];
            match radix_of(h) {
                Some(r) => if i + 2 < s.len() && is_digit_in(s[i + 2], r as int) {
                    let e = run_end(s, i + 2, r as int);
                    let v = int_of_digits(s, i + 2, e, r as int);
                    if v > u32::MAX || !is_scalar(v as u32) {
                        None
                    } else {
                        scan_string(s, e, acc.push(v as u32 as char))
                    }
                } else if i + 2 >= s.len() {
                    None
                } else {
                    scan_string(s, i + 2, acc.push(h))
                },
                None => scan_string(s, i + 2, acc.push(h)),
            }
        }
    } else {
        scan_string(s, i + 1, acc.push(s[i]))
    }
}

#[via_fn]
proof fn scan_string_decreases(s: Seq<char>, i: int, acc: Seq<char>) {
    if 0 <= i < s.len() && s[i] == '\\' && i + 1 < s.len() {
        if radix_of(s[i + 1]) is Some {
            let r = radix_of(s[i + 1])->0 as int;
            if i + 2 < s.len() && is_digit_in(s[i + 2], r) {
                lemma_run_end_bounds(s, i + 3, r);
            }
        }
    }
}

/// A successful string scan lands past `i` and within the input.
pub proof fn lemma_scan_string_bounds(s: Seq<char>, i: int, acc: Seq<char>)
    requires
        0 <= i <= s.len(),
        scan_string(s, i, acc) is Some,
    ensures
        i < (scan_string(s, i, acc)->0).1 <= s.len(),
    decreases s.len() - i,
{
    if i < s.len() && s[i] != '"' {
        if s[i] == '\\' && i + 1 < s.len() {
            let h = s[i + 1];
            match radix_of(h) {
                Some(r) => {
                    if i + 2 < s.len() && is_digit_in(s[i + 2], r as int) {
                        let e = run_end(s, i + 2, r as int);
                        let v = int_of_digits(s, i + 2, e, r as int);
                        lemma_run_end_bounds(s, i + 3, r as int);
                        if !(v > u32::MAX || !is_scalar(v as u32)) {
                            lemma_scan_string_bounds(s, e, acc.push(v as u32 as char));
                        }
                    } else if i + 2 < s.len() {
                        lemma_scan_string_bounds(s, i + 2, acc.push(h));
                    }
                },
                None => {
                    if i + 2 <= s.len() {
                        lemma_scan_string_bounds(s, i + 2, acc.push(h));
                    }
                },
            }
        } else if s[i] != '\\' {
            lemma_scan_string_bounds(s, i + 1, acc.push(s[i]));
        }
    }
}

/// Largest magnitude a decimal or radix integer literal may denote: `-2^63`
/// is still an `i64`, `2^63` is not.
pub open spec fn int_lit_cap() -> int {
    0x8000_0000_0000_0000
}

/// A numeric token starting at `i`; `k` is the first position after the
/// optional leading `-`, so `neg` says whether the literal is negated.
/// A literal containing `.` keeps its text as a float; a single `0` followed
/// by a radix letter selects that base for the run of identifier characters
/// after the letter; anything else is read as a decimal integer. A radix
/// letter outside the fixed table, a digit invalid in the selected base and
/// a value that does not fit an `i64` all yield the error token.
pub open spec fn spec_number_token(s: Seq<char>, i: int, k: int, neg: bool) -> (TokenV, int) {
    let d1 = run_end(s, k, 10);
    if d1 < s.len() && s[d1] == '.' && d1 + 1 < s.len() && is_digit(s[d1 + 1]) {
        let d2 = run_end(s, d1 + 1, 10);
        (TokenV::Float(s.subrange(i, d2)), d2)
    } else if d1 == k + 1 && s[k] == '0' && d1 < s.len() && !is_digit(s[d1]) && !is_space(s[d1])
        && d1 + 1 < s.len() && !is_space(s[d1 + 1]) {
        match radix_of(s[d1]) {
            Some(r) => {
                let e = ident_end(s, d1 + 1);
                let v = int_of_digits(s, d1 + 1, e, r as int);
                if e == d1 + 1 || !all_digits_in(s, d1 + 1, e, r as int) {
                    (TokenV::Error, e)
                } else if neg {
                    if v <= int_lit_cap() {
                        (TokenV::Integer((-v) as i64), e)
                    } else {
                        (TokenV::Error, e)
                    }
                } else {
                    if v < int_lit_cap() {
                        (TokenV::Integer(v as i64), e)
                    } else {
                        (TokenV::Error, e)
                    }
                }
            },
            None => (TokenV::Error, nonspace_end(s, d1)),
        }
    } else {
        let v = int_of_digits(s, k, d1, 10);
        if neg {
            if v <= int_lit_cap() {
                (TokenV::Integer((-v) as i64), d1)
            } else {
                (TokenV::Error, d1)
            }
        } else {
            if v < int_lit_cap() {
                (TokenV::Integer(v as i64), d1)
            } else {
                (TokenV::Error, d1)
            }
        }
    }
}

/// The keyword token for the identifier text `s[i..j]`, or the identifier
/// itself.
pub open spec fn spec_word_token(s: Seq<char>, i: int, j: int) -> TokenV {
    if j - i == 4 && s[i] == 'd' && s[i + 1] == 'a' && s[i + 2] == 't' && s[i + 3] == 'a' {
        TokenV::Data
    } else if j - i == 6 && s[i] == 'g' && s[i + 1] == 'l' && s[i + 2] == 'o' && s[i + 3] == 'b'
        && s[i + 4] == 'a' && s[i + 5] == 'l' {
        TokenV::Global
    } else if j - i == 6 && s[i] == 'e' && s[i + 1] == 'x' && s[i + 2] == 'p' && s[i + 3] == 'o'
        && s[i + 4] == 'r' && s[i + 5] == 't' {
        TokenV::Export
    } else if j - i == 6 && s[i] == 'r' && s[i + 1] == 'e' && s[i + 2] == 't' && s[i + 3] == 'u'
        && s[i + 4] == 'r' && s[i + 5] == 'n' {
        TokenV::Return
    } else if j - i == 2 && s[i] == 'f' && s[i + 1] == 'n' {
        TokenV::Fn
    } else {
        TokenV::Ident(s.subrange(i, j))
    }
}

/// The token starting at the non-whitespace position `i`, and the position
/// just past it.
pub open spec fn spec_token_at(s: Seq<char>, i: int) -> (TokenV, int)
    recommends
        0 <= i < s.len(),
        !is_space(s[i]),
{
    let c = s[i];
    if c == '"' {
        match scan_string(s, i + 1, Seq::empty()) {
            Some((body, e)) => (TokenV::Str(body), e),
            None => (TokenV::Error, s.len() as int),
        }
    } else if c == '(' {
        (TokenV::OpenParen, i + 1)
    } else if c == ')' {
        (TokenV::CloseParen, i + 1)
    } else if c == '{' {
        (TokenV::OpenBrace, i + 1)
    } else if c == '}' {
        (TokenV::CloseBrace, i + 1)
    } else if c == '[' {
        (TokenV::OpenBracket, i + 1)
    } else if c == ']' {
        (TokenV::CloseBracket, i + 1)
    } else if c == ';' {
        (TokenV::Semicolon, i + 1)
    } else if c == ',' {
        (TokenV::Comma, i + 1)
    } else if c == '=' {
        if i + 1 < s.len() && s[i + 1] == '=' {
            (TokenV::Op(seq!['=', '=']), i + 2)
        } else {
            (TokenV::Equals, i + 1)
        }
    } else if c == '!' {
        if i + 1 < s.len() && s[i + 1] == '=' {
            (TokenV::Op(seq!['!', '=']), i + 2)
        } else {
            (TokenV::Error, i + 1)
        }
    } else if c == '>' {
        if i + 1 < s.len() && s[i + 1] == '=' {
            (TokenV::Op(seq!['>', '=']), i + 2)
        } else if i + 1 < s.len() && s[i + 1] == '>' {
            (TokenV::Op(seq!['>', '>']), i + 2)
        } else {
            (TokenV::Op(seq!['>']), i + 1)
        }
    } else if c == '<' {
        if i + 1 < s.len() && s[i + 1] == '=' {
            (TokenV::Op(seq!['<', '=']), i + 2)
        } else if i + 1 < s.len() && s[i + 1] == '<' {
            (TokenV::Op(seq!['<', '<']), i + 2)
        } else {
            (TokenV::Op(seq!['<']), i + 1)
        }
    } else if c == '*' {
        if i + 1 < s.len() && s[i + 1] == '*' {
            (TokenV::Op(seq!['*', '*']), i + 2)
        } else {
            (TokenV::Op(seq!['*']), i + 1)
        }
    } else if c == '^' || c == '|' || c == '&' || c == '+' || c == '/' {
        (TokenV::Op(seq![c]), i + 1)
    } else if c == '-' {
        if i + 1 < s.len() && (is_digit(s[i + 1]) || (s[i + 1] == '.' && i + 2 < s.len()
            && is_digit(s[i + 2]))) {
            spec_number_token(s, i, i + 1, true)
        } else {
            (TokenV::Op(seq!['-']), i + 1)
        }
    } else if is_digit(c) || (c == '.' && i + 1 < s.len() && is_digit(s[i + 1])) {
        spec_number_token(s, i, i, false)
    } else if is_ident_start(c) {
        (spec_word_token(s, i, ident_end(s, i)), ident_end(s, i))
    } else {
        (TokenV::Error, i + 1)
    }
}

/// The next token at or after position `i`: its view, its start and its end.
/// `None` once only whitespace remains.
pub open spec fn spec_next(s: Seq<char>, i: int) -> Option<(TokenV, int, int)> {
    let j = skip_ws(s, i);
    if j >= s.len() {
        None
    } else {
        let (t, e) = spec_token_at(s, j);
        Some((t, j, e))
    }
}

/// Every token occupies a non-empty range of the input.
pub proof fn lemma_token_at_bounds(s: Seq<char>, i: int)
    requires
        0 <= i < s.len(),
        !is_space(s[i]),
    ensures
        i < spec_token_at(s, i).1 <= s.len(),
{
    let c = s[i];
    if c == '"' {
        if scan_string(s, i + 1, Seq::empty()) is Some {
            lemma_scan_string_bounds(s, i + 1, Seq::empty());
        }
    } else if c == '-' && i + 1 < s.len() && (is_digit(s[i + 1]) || (s[i + 1] == '.' && i + 2
        < s.len() && is_digit(s[i + 2]))) {
        lemma_number_token_bounds(s, i, i + 1);
    } else if is_digit(c) || (c == '.' && i + 1 < s.len() && is_digit(s[i + 1])) {
        lemma_number_token_bounds(s, i, i);
    } else if !(c == '(' || c == ')' || c == '{' || c == '}' || c == '[' || c == ']' || c == ';'
        || c == ',' || c == '=' || c == '!' || c == '>' || c == '<' || c == '*' || c == '^' || c
        == '|' || c == '&' || c == '+' || c == '/' || c == '-') && is_ident_start(c) {
        lemma_ident_end_bounds(s, i);
        assert(ident_end(s, i) == ident_end(s, i + 1));
    }
}

proof fn lemma_number_token_bounds(s: Seq<char>, i: int, k: int)
    requires
        0 <= i <= k <= i + 1 < s.len() + 1,
        k < s.len(),
        is_digit(s[k]) || (s[k] == '.' && k + 1 < s.len() && is_digit(s[k + 1])),
    ensures
        i < spec_number_token(s, i, k, true).1 <= s.len(),
        i < spec_number_token(s, i, k, false).1 <= s.len(),
{
    lemma_run_end_bounds(s, k, 10);
    let d1 = run_end(s, k, 10);
    if d1 < s.len() && s[d1] == '.' && d1 + 1 < s.len() && is_digit(s[d1 + 1]) {
        lemma_run_end_bounds(s, d1 + 1, 10);
        assert(run_end(s, d1 + 1, 10) == run_end(s, d1 + 2, 10));
    } else {
        if is_digit(s[k]) {
            assert(run_end(s, k, 10) == run_end(s, k + 1, 10));
        }
        if d1 == k + 1 && s[k] == '0' && d1 < s.len() && !is_digit(s[d1]) && !is_space(s[d1])
            && d1 + 1 < s.len() && !is_space(s[d1 + 1]) {
            lemma_ident_end_bounds(s, d1 + 1);
            lemma_nonspace_end_bounds(s, d1);
            assert(nonspace_end(s, d1) == nonspace_end(s, d1 + 1));
        }
    }
}

/// The next token, when there is one, lies between `i` and the end of the
/// input and is non-empty.
pub proof fn lemma_spec_next_bounds(s: Seq<char>, i: int)
    requires
        0 <= i <= s.len(),
    ensures
        spec_next(s, i) is None ==> skip_ws(s, i) == s.len(),
        spec_next(s, i) matches Some((t, st, en)) ==> i <= st < en <= s.len(),
{
    lemma_skip_ws_bounds(s, i);
    let j = skip_ws(s, i);
    if j < s.len() {
        lemma_token_at_bounds(s, j);
    }
}

/// Relies on `String::push`: appends the given character to the end of the
/// string.
#[verifier::external_body]
pub(crate) fn push_char(s: &mut String, c: char) -> (r: ())
    ensures
        final(s)@ == old(s)@.push(c),
{
    s.push(c)
}

/// Relies on `char::from_u32`: yields the character with the given code
/// point, or `None` when the value is a surrogate or above `0x10FFFF`.
#[verifier::external_body]
fn char_from_u32(v: u32) -> (r: Option<char>)
    ensures
        r is Some <==> is_scalar(v),
        r matches Some(c) ==> c as u32 == v,
{
    char::from_u32(v)
}

/// The characters of a string slice, collected into a vector.
pub fn chars_of(s: &str) -> (r: Vec<char>)
    ensures
        r@ == s@,
{
    broadcast use vstd::string::group_string_axioms;

    let mut it = s.chars();
    let ghost total: Seq<char> = s@;
    let mut out: Vec<char> = Vec::new();
    loop
        invariant
            out@ + it.remaining() == total,
        ensures
            out@ == total,
        decreases total.len() - out@.len(),
    {
        match it.next() {
            Some(c) => out.push(c),
            None => break ,
        }
    }
    out
}

/// The text `src[i..j]`, collected into a string.
fn substring_chars(src: &Vec<char>, i: usize, j: usize) -> (r: String)
    requires
        i <= j <= src@.len(),
    ensures
        r@ == src@.subrange(i as int, j as int),
{
    let mut out = String::new();
    let mut k: usize = i;
    while k < j
        invariant
            i <= k <= j <= src@.len(),
            out@ == src@.subrange(i as int, k as int),
        decreases j - k,
    {
        push_char(&mut out, src[k]);
        proof {
            assert(src@.subrange(i as int, k + 1 as int) == src@.subrange(i as int, k as int).push(
                src@[k as int]));
        }
        k = k + 1;
    }
    out
}

/// Executable form of [`is_space`].
fn is_space_x(c: char) -> (b: bool)
    ensures
        b == is_space(c),
{
    c == ' ' || c == '\t' || c == '\n' || c == '\r' || c == '\u{b}' || c == '\u{c}'
}

/// Executable form of [`is_digit`].
fn is_digit_x(c: char) -> (b: bool)
    ensures
        b == is_digit(c),
{
    c as u32 >= '0' as u32 && c as u32 <= '9' as u32
}

/// Executable form of [`is_ident_start`].
fn is_ident_start_x(c: char) -> (b: bool)
    ensures
        b == is_ident_start(c),
{
    c == '_' || (c as u32 >= 'a' as u32 && c as u32 <= 'z' as u32) || (c as u32 >= 'A' as u32 && c
        as u32 <= 'Z' as u32)
}

/// Executable form of [`is_ident_char`].
fn is_ident_char_x(c: char) -> (b: bool)
    ensures
        b == is_ident_char(c),
{
    is_ident_start_x(c) || is_digit_x(c)
}

/// Executable form of [`digit_val`].
fn digit_val_x(c: char) -> (r: u32)
    ensures
        r as int == digit_val(c),
{
    if c as u32 >= '0' as u32 && c as u32 <= '9' as u32 {
        c as u32 - '0' as u32
    } else if c as u32 >= 'a' as u32 && c as u32 <= 'z' as u32 {
        c as u32 - 'a' as u32 + 10
    } else if c as u32 >= 'A' as u32 && c as u32 <= 'Z' as u32 {
        c as u32 - 'A' as u32 + 10
    } else {
        99
    }
}

/// Executable form of [`radix_of`].
fn radix_of_x(c: char) -> (r: Option<u32>)
    ensures
        r == radix_of(c),
{
    match c {
        'b' => Some(2u32),
        't' => Some(3u32),
        'q' => Some(4u32),
        'p' => Some(5u32),
        'h' => Some(6u32),
        's' => Some(7u32),
        'o' => Some(8u32),
        'e' => Some(9u32),
        'd' => Some(10u32),
        'l' => Some(11u32),
        'z' => Some(12u32),
        'x' => Some(16u32),
        _ => None,
    }
}

/// Reads the maximal run of digits valid in base `r` from `start`, keeping
/// the value as long as it stays within `cap`. Yields the end of the run,
/// the value when it fits, and whether it exceeded `cap`.
fn scan_radix_digits(src: &Vec<char>, start: usize, r: u32, cap: u64) -> (res: (usize, u64, bool))
    requires
        start <= src@.len(),
        2 <= r <= 16,
        cap <= 0x8000_0000_0000_0000u64,
    ensures
        res.0 == run_end(src@, start as int, r as int),
        res.2 <==> int_of_digits(src@, start as int, res.0 as int, r as int) > cap,
        !res.2 ==> res.1 as int == int_of_digits(src@, start as int, res.0 as int, r as int)
            && res.1 <= cap,
{
    let ghost s = src@;
    let mut k: usize = start;
    let mut acc: u64 = 0;
    let mut over: bool = false;
    while k < src.len() && digit_val_x(src[k]) < r
        invariant
            start <= k <= s.len(),
            src@ == s,
            run_end(s, start as int, r as int) == run_end(s, k as int, r as int),
            !over ==> acc as int == int_of_digits(s, start as int, k as int, r as int) && acc
                <= cap,
            over ==> int_of_digits(s, start as int, k as int, r as int) > cap,
            2 <= r <= 16,
            cap <= 0x8000_0000_0000_0000u64,
        decreases s.len() - k,
    {
        let d = digit_val_x(src[k]);
        proof {
            lemma_int_of_digits_mono(s, start as int, k as int, k + 1, r as int);
        }
        if !over {
            proof {
                assert(acc as int * r as int <= 0x8000_0000_0000_0000 * 16) by (nonlinear_arith)
                    requires
                        acc <= 0x8000_0000_0000_0000u64,
                        r <= 16,
                ;
            }
            let wide: u128 = acc as u128 * r as u128 + d as u128;
            if wide > cap as u128 {
                over = true;
            } else {
                acc = wide as u64;
            }
        }
        k = k + 1;
    }
    (k, acc, over)
}

/// Reads the maximal run of identifier characters from `start` as digits in
/// base `r`. Yields the end of the run, whether every character was a digit
/// valid in `r`, the value when it fits, and whether it exceeded `cap`.
fn scan_int_extent(src: &Vec<char>, start: usize, r: u32, cap: u64) -> (res: (
    usize,
    bool,
    u64,
    bool,
))
    requires
        start <= src@.len(),
        2 <= r <= 16,
        cap <= 0x8000_0000_0000_0000u64,
    ensures
        res.0 == ident_end(src@, start as int),
        res.1 <==> all_digits_in(src@, start as int, res.0 as int, r as int),
        res.1 ==> (res.3 <==> int_of_digits(src@, start as int, res.0 as int, r as int) > cap),
        res.1 && !res.3 ==> res.2 as int == int_of_digits(src@, start as int, res.0 as int,
            r as int) && res.2 <= cap,
{
    let ghost s = src@;
    let mut k: usize = start;
    let mut acc: u64 = 0;
    let mut over: bool = false;
    let mut valid: bool = true;
    while k < src.len() && is_ident_char_x(src[k])
        invariant
            start <= k <= s.len(),
            src@ == s,
            ident_end(s, start as int) == ident_end(s, k as int),
            valid <==> all_digits_in(s, start as int, k as int, r as int),
            valid && !over ==> acc as int == int_of_digits(s, start as int, k as int, r as int)
                && acc <= cap,
            valid && over ==> int_of_digits(s, start as int, k as int, r as int) > cap,
            2 <= r <= 16,
            cap <= 0x8000_0000_0000_0000u64,
        decreases s.len() - k,
    {
        let d = digit_val_x(src[k]);
        proof {
            lemma_int_of_digits_mono(s, start as int, k as int, k + 1, r as int);
        }
        if d >= r {
            valid = false;
        } else if valid && !over {
            proof {
                assert(acc as int * r as int <= 0x8000_0000_0000_0000 * 16) by (nonlinear_arith)
                    requires
                        acc <= 0x8000_0000_0000_0000u64,
                        r <= 16,
                ;
            }
            let wide: u128 = acc as u128 * r as u128 + d as u128;
            if wide > cap as u128 {
                over = true;
            } else {
                acc = wide as u64;
            }
        }
        k = k + 1;
    }
    (k, valid, acc, over)
}

/// Reading from a token's own start yields that token again.
pub proof fn lemma_spec_next_at_start(s: Seq<char>, i: int)
    requires
        0 <= i <= s.len(),
    ensures
        spec_next(s, i) matches Some((t, st, en)) ==> spec_next(s, st) == Some((t, st, en)),
{
    lemma_skip_ws_bounds(s, i);
    match spec_next(s, i) {
        Some((t, st, en)) => {
            lemma_skip_ws_bounds(s, st);
            assert(skip_ws(s, st) == st);
        },
        None => {},
    }
}

/// A one-character operator symbol as a string.
fn op1(c: char) -> (r: String)
    ensures
        r@ == seq![c],
{
    let mut s = String::new();
    push_char(&mut s, c);
    proof {
        assert(Seq::<char>::empty().push(c) =~= seq![c]);
    }
    s
}

/// A two-character operator symbol as a string.
fn op2(c0: char, c1: char) -> (r: String)
    ensures
        r@ == seq![c0, c1],
{
    let mut s = String::new();
    push_char(&mut s, c0);
    push_char(&mut s, c1);
    proof {
        assert(Seq::<char>::empty().push(c0).push(c1) =~= seq![c0, c1]);
    }
    s
}

/// Reads the string literal starting at the `"` at position `i`.
fn lex_string(src: &Vec<char>, i: usize) -> (res: (Token, usize))
    requires
        i < src@.len(),
        src@[i as int] == '"',
    ensures
        res.0@ == spec_token_at(src@, i as int).0,
        res.1 == spec_token_at(src@, i as int).1,
{
    let ghost s = src@;
    let n = src.len();
    assert(i < n);
    let mut pos: usize = i + 1;
    let mut acc = String::new();
    loop
        invariant
            i + 1 <= pos <= s.len(),
            src@ == s,
            i < s.len(),
            s[i as int] == '"',
            scan_string(s, i + 1, Seq::empty()) == scan_string(s, pos as int, acc@),
        decreases s.len() - pos,
    {
        if pos >= src.len() {
            return (Token::Error, src.len());
        }
        let c = src[pos];
        if c == '"' {
            return (Token::Str(acc), pos + 1);
        }
        if c == '\\' {
            if pos + 1 >= src.len() {
                return (Token::Error, src.len());
            }
            let h = src[pos + 1];
            match radix_of_x(h) {
                Some(r) => {
                    if pos + 2 < src.len() && digit_val_x(src[pos + 2]) < r {
                        let (e, v, over) = scan_radix_digits(src, pos + 2, r, 0xFFFF_FFFFu64);
                        proof {
                            lemma_run_end_bounds(s, pos + 3, r as int);
                        }
                        if over {
                            return (Token::Error, src.len());
                        }
                        match char_from_u32(v as u32) {
                            None => {
                                return (Token::Error, src.len());
                            },
                            Some(ch) => {
                                proof {
                                    vstd::utf8::char_u32_cast(ch, v as u32);
                                }
                                push_char(&mut acc, ch);
                                pos = e;
                            },
                        }
                    } else if pos + 2 >= src.len() {
                        return (Token::Error, src.len());
                    } else {
                        push_char(&mut acc, h);
                        pos = pos + 2;
                    }
                },
                None => {
                    push_char(&mut acc, h);
                    pos = pos + 2;
                },
            }
        } else {
            push_char(&mut acc, c);
            pos = pos + 1;
        }
    }
}

/// Reads the numeric literal starting at `i`; `k` is the first position
/// after the optional leading `-`.
fn lex_number(src: &Vec<char>, i: usize, k: usize, neg: bool) -> (res: (Token, usize))
    requires
        i <= k < src@.len(),
        k <= i + 1,
    ensures
        res.0@ == spec_number_token(src@, i as int, k as int, neg).0,
        res.1 == spec_number_token(src@, i as int, k as int, neg).1,
{
    let ghost s = src@;
    let cap: u64 = 0x8000_0000_0000_0000u64;
    let (d1, v10, over10) = scan_radix_digits(src, k, 10, cap);
    proof {
        lemma_run_end_bounds(s, k as int, 10);
    }
    if d1 < src.len() && src[d1] == '.' && d1 + 1 < src.len() && is_digit_x(src[d1 + 1]) {
        let (d2, _unused_v, _unused_o) = scan_radix_digits(src, d1 + 1, 10, cap);
        proof {
            lemma_run_end_bounds(s, d1 + 1, 10);
        }
        let text = substring_chars(src, i, d2);
        (Token::Float(text), d2)
    } else if d1 == k + 1 && src[k] == '0' && d1 < src.len() && !is_digit_x(src[d1]) && !is_space_x(
        src[d1],
    ) && d1 + 1 < src.len() && !is_space_x(src[d1 + 1]) {
        match radix_of_x(src[d1]) {
            Some(r) => {
                let (e, valid, v, over) = scan_int_extent(src, d1 + 1, r, cap);
                proof {
                    lemma_ident_end_bounds(s, d1 + 1);
                }
                if e == d1 + 1 || !valid {
                    (Token::Error, e)
                } else if over {
                    (Token::Error, e)
                } else if neg {
                    let n: i64 = if v == cap {
                        i64::MIN
                    } else {
                        -(v as i64)
                    };
                    (Token::Integer(n), e)
                } else {
                    if v < cap {
                        (Token::Integer(v as i64), e)
                    } else {
                        (Token::Error, e)
                    }
                }
            },
            None => {
                let mut m: usize = d1;
                while m < src.len() && !is_space_x(src[m])
                    invariant
                        d1 <= m <= s.len(),
                        src@ == s,
                        nonspace_end(s, d1 as int) == nonspace_end(s, m as int),
                    decreases s.len() - m,
                {
                    m = m + 1;
                }
                (Token::Error, m)
            },
        }
    } else {
        if over10 {
            (Token::Error, d1)
        } else if neg {
            let n: i64 = if v10 == cap {
                i64::MIN
            } else {
                -(v10 as i64)
            };
            (Token::Integer(n), d1)
        } else {
            if v10 < cap {
                (Token::Integer(v10 as i64), d1)
            } else {
                (Token::Error, d1)
            }
        }
    }
}

/// Reads the identifier or keyword starting at `i`.
fn lex_word(src: &Vec<char>, i: usize) -> (res: (Token, usize))
    requires
        i < src@.len(),
        is_ident_start(src@[i as int]),
    ensures
        res.0@ == spec_word_token(src@, i as int, ident_end(src@, i as int)),
        res.1 == ident_end(src@, i as int),
{
    let ghost s = src@;
    let mut j: usize = i;
    while j < src.len() && is_ident_char_x(src[j])
        invariant
            i <= j <= s.len(),
            src@ == s,
            ident_end(s, i as int) == ident_end(s, j as int),
        decreases s.len() - j,
    {
        j = j + 1;
    }
    let n = j - i;
    if n == 4 && src[i] == 'd' && src[i + 1] == 'a' && src[i + 2] == 't' && src[i + 3] == 'a' {
        (Token::Data, j)
    } else if n == 6 && src[i] == 'g' && src[i + 1] == 'l' && src[i + 2] == 'o' && src[i + 3]
        == 'b' && src[i + 4] == 'a' && src[i + 5] == 'l' {
        (Token::Global, j)
    } else if n == 6 && src[i] == 'e' && src[i + 1] == 'x' && src[i + 2] == 'p' && src[i + 3]
        == 'o' && src[i + 4] == 'r' && src[i + 5] == 't' {
        (Token::Export, j)
    } else if n == 6 && src[i] == 'r' && src[i + 1] == 'e' && src[i + 2] == 't' && src[i + 3]
        == 'u' && src[i + 4] == 'r' && src[i + 5] == 'n' {
        (Token::Return, j)
    } else if n == 2 && src[i] == 'f' && src[i + 1] == 'n' {
        (Token::Fn, j)
    } else {
        (Token::Ident(substring_chars(src, i, j)), j)
    }
}

/// The pull-based lexer cursor: the source characters and the position the
/// next token will be read from.
pub struct Lexer {
    pub src: Vec<char>,
    pub pos: usize,
}

impl Lexer {
    /// The cursor position lies within the source.
    pub open spec fn wf(&self) -> bool {
        self.pos <= self.src@.len()
    }

    /// A fresh cursor at the start of the given source text.
    pub fn new(source: &str) -> (r: Lexer)
        ensures
            r.src@ == source@,
            r.pos == 0,
            r.wf(),
    {
        Lexer { src: chars_of(source), pos: 0 }
    }

    /// Produces the next token with its start and end positions, or `None`
    /// at the end of the input: exactly what [`spec_next`] says of the
    /// source at the current position.
    pub fn next(&mut self) -> (r: Option<(Token, usize, usize)>)
        requires
            old(self).wf(),
        ensures
            final(self).wf(),
            final(self).src@ == old(self).src@,
            match spec_next(old(self).src@, old(self).pos as int) {
                None => r is None && final(self).pos == old(self).src@.len(),
                Some((tv, st, en)) => r matches Some(p) && p.0@ == tv && p.1 == st && p.2 == en
                    && final(self).pos == en,
            },
    {
        let ghost s = self.src@;
        let ghost p0 = self.pos as int;
        while self.pos < self.src.len() && is_space_x(self.src[self.pos])
            invariant
                self.pos <= s.len(),
                self.src@ == s,
                skip_ws(s, p0) == skip_ws(s, self.pos as int),
            decreases s.len() - self.pos,
        {
            self.pos = self.pos + 1;
        }
        if self.pos >= self.src.len() {
            return None;
        }
        let j = self.pos;
        let c = self.src[j];
        let (tok, end): (Token, usize) = if c == '"' {
            lex_string(&self.src, j)
        } else if c == '(' {
            (Token::OpenParen, j + 1)
        } else if c == ')' {
            (Token::CloseParen, j + 1)
        } else if c == '{' {
            (Token::OpenBrace, j + 1)
        } else if c == '}' {
            (Token::CloseBrace, j + 1)
        } else if c == '[' {
            (Token::OpenBracket, j + 1)
        } else if c == ']' {
            (Token::CloseBracket, j + 1)
        } else if c == ';' {
            (Token::Semicolon, j + 1)
        } else if c == ',' {
            (Token::Comma, j + 1)
        } else if c == '=' {
            if j + 1 < self.src.len() && self.src[j + 1] == '=' {
                (Token::Op(op2('=', '=')), j + 2)
            } else {
                (Token::Equals, j + 1)
            }
        } else if c == '!' {
            if j + 1 < self.src.len() && self.src[j + 1] == '=' {
                (Token::Op(op2('!', '=')), j + 2)
            } else {
                (Token::Error, j + 1)
            }
        } else if c == '>' {
            if j + 1 < self.src.len() && self.src[j + 1] == '=' {
                (Token::Op(op2('>', '=')), j + 2)
            } else if j + 1 < self.src.len() && self.src[j + 1] == '>' {
                (Token::Op(op2('>', '>')), j + 2)
            } else {
                (Token::Op(op1('>')), j + 1)
            }
        } else if c == '<' {
            if j + 1 < self.src.len() && self.src[j + 1] == '=' {
                (Token::Op(op2('<', '=')), j + 2)
            } else if j + 1 < self.src.len() && self.src[j + 1] == '<' {
                (Token::Op(op2('<', '<')), j + 2)
            } else {
                (Token::Op(op1('<')), j + 1)
            }
        } else if c == '*' {
            if j + 1 < self.src.len() && self.src[j + 1] == '*' {
                (Token::Op(op2('*', '*')), j + 2)
            } else {
                (Token::Op(op1('*')), j + 1)
            }
        } else if c == '^' || c == '|' || c == '&' || c == '+' || c == '/' {
            (Token::Op(op1(c)), j + 1)
        } else if c == '-' {
            if j + 1 < self.src.len() && (is_digit_x(self.src[j + 1]) || (self.src[j + 1] == '.'
                && j + 2 < self.src.len() && is_digit_x(self.src[j + 2]))) {
                lex_number(&self.src, j, j + 1, true)
            } else {
                (Token::Op(op1('-')), j + 1)
            }
        } else if is_digit_x(c) || (c == '.' && j + 1 < self.src.len() && is_digit_x(
            self.src[j + 1],
        )) {
            lex_number(&self.src, j, j, false)
        } else if is_ident_start_x(c) {
            lex_word(&self.src, j)
        } else {
            (Token::Error, j + 1)
        };
        proof {
            lemma_token_at_bounds(s, j as int);
        }
        self.pos = end;
        Some((tok, j, end))
    }
}

} // verus!
