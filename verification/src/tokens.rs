//! Token classification: maps a symbol to its precedence class.
use vstd::prelude::*;
use vstd::string::StrSliceExecFns;

verus! {

/// Precedence class of a single symbol character.
///
/// Positive classes are operators (`/` and `÷` bind tightest, then `*`/`×`,
/// then `+`, then `-`/`−`); `-1` and `-2` are the grouping brackets; `-3` is
/// the percent marker used for 100-sided dice; every other character is an
/// operand character and classifies to `0`.
pub open spec fn classify_char(c: char) -> int {
    if c == '/' || c == '÷' {
        4
    } else if c == '*' || c == '×' {
        3
    } else if c == '+' {
        2
    } else if c == '-' || c == '−' {
        1
    } else if c == '(' {
        -1
    } else if c == ')' {
        -2
    } else if c == '%' {
        -3
    } else {
        0
    }
}

/// Precedence class of a token string: a one-character token classifies as
/// its character does; any other string (longer, or empty) is an operand
/// fragment and classifies to `0`.
pub open spec fn classify(s: Seq<char>) -> int {
    if s.len() == 1 {
        classify_char(s[0])
    } else {
        0
    }
}

/// True of the token strings the classification table defines a nonzero
/// class for: the operator, bracket and percent symbols.
pub open spec fn is_known_symbol(s: Seq<char>) -> bool {
    s.len() == 1 && classify_char(s[0]) != 0
}

/// Classification is total: a token outside the defined symbol table always
/// classifies to `0`.
pub proof fn lemma_classify_unknown_is_zero(s: Seq<char>)
    requires
        !is_known_symbol(s),
    ensures
        classify(s) == 0,
{
}

/// Returns the precedence class of a single symbol character.
pub fn match_symbol(c: char) -> (r: i32)
    ensures
        r as int == classify_char(c),
{
    if c == '/' || c == '÷' {
        4
    } else if c == '*' || c == '×' {
        3
    } else if c == '+' {
        2
    } else if c == '-' || c == '−' {
        1
    } else if c == '(' {
        -1
    } else if c == ')' {
        -2
    } else if c == '%' {
        -3
    } else {
        0
    }
}

/// Returns the precedence class of the given token string.
pub fn match_token(token: &str) -> (r: i32)
    ensures
        r as int == classify(token@),
{
    let len = token.unicode_len();
    if len == 1 {
        match_symbol(token.get_char(0))
    } else {
        0
    }
}

} // verus!
