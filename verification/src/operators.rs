//! The precedence table: a static total mapping from operator symbol to
//! binding strength, over the fixed operator set.

use vstd::prelude::*;

verus! {

/// Binding strength of an operator symbol, on the mathematical view of the
/// symbol text. Total over the fixed operator set; `None` otherwise.
/// Strengths low to high: `|` 0, `^` 1, `&` 2, `==`/`!=` 3,
/// `>`/`<`/`>=`/`<=` 4, `>>`/`<<` 5, `+`/`-` 6, `*`/`/` 7, `**` 8.
pub open spec fn spec_precedence(op: Seq<char>) -> Option<u8> {
    if op.len() == 1 {
        match op[0] {
            '|' => Some(0u8),
            '^' => Some(1u8),
            '&' => Some(2u8),
            '>' => Some(4u8),
            '<' => Some(4u8),
            '+' => Some(6u8),
            '-' => Some(6u8),
            '*' => Some(7u8),
            '/' => Some(7u8),
            _ => None,
        }
    } else if op.len() == 2 {
        if op[0] == '=' && op[1] == '=' {
            Some(3u8)
        } else if op[0] == '!' && op[1] == '=' {
            Some(3u8)
        } else if op[0] == '>' && op[1] == '=' {
            Some(4u8)
        } else if op[0] == '<' && op[1] == '=' {
            Some(4u8)
        } else if op[0] == '>' && op[1] == '>' {
            Some(5u8)
        } else if op[0] == '<' && op[1] == '<' {
            Some(5u8)
        } else if op[0] == '*' && op[1] == '*' {
            Some(8u8)
        } else {
            None
        }
    } else {
        None
    }
}

/// Every defined binding strength lies between 0 and 8.
pub proof fn lemma_precedence_range(op: Seq<char>)
    ensures
        spec_precedence(op) is Some ==> 0 <= spec_precedence(op)->0 <= 8,
{
}

/// Binding strength of an operator symbol; `None` for a symbol outside the
/// fixed operator set.
pub fn precedence(op: &str) -> (r: Option<u8>)
    ensures
        r == spec_precedence(op@),
{
    let n = op.unicode_len();
    if n == 1 {
        let c = op.get_char(0);
        match c {
            '|' => Some(0u8),
            '^' => Some(1u8),
            '&' => Some(2u8),
            '>' => Some(4u8),
            '<' => Some(4u8),
            '+' => Some(6u8),
            '-' => Some(6u8),
            '*' => Some(7u8),
            '/' => Some(7u8),
            _ => None,
        }
    } else if n == 2 {
        let c0 = op.get_char(0);
        let c1 = op.get_char(1);
        if c0 == '=' && c1 == '=' {
            Some(3u8)
        } else if c0 == '!' && c1 == '=' {
            Some(3u8)
        } else if c0 == '>' && c1 == '=' {
            Some(4u8)
        } else if c0 == '<' && c1 == '=' {
            Some(4u8)
        } else if c0 == '>' && c1 == '>' {
            Some(5u8)
        } else if c0 == '<' && c1 == '<' {
            Some(5u8)
        } else if c0 == '*' && c1 == '*' {
            Some(8u8)
        } else {
            None
        }
    } else {
        None
    }
}

} // verus!
