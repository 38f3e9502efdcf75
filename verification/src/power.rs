//! The binding-power table: how tightly a token binds to its left and to its
//! right.

use vstd::prelude::*;

verus! {

/// A digit or an ASCII letter: a token that stands for itself.
pub open spec fn is_atom(c: char) -> bool {
    ||| '0' <= c <= '9'
    ||| 'a' <= c <= 'z'
    ||| 'A' <= c <= 'Z'
}

/// The (left, right) binding powers of `op`, or `None` where `op` cannot
/// stand in an expression. `prefix` says that no left operand has been
/// assembled yet; only `+` and `-` depend on it.
pub open spec fn spec_binding_power(op: char, prefix: bool) -> Option<(u8, u8)> {
    if is_atom(op) {
        Some((99u8, 100u8))
    } else if op == '(' {
        Some((99u8, 0u8))
    } else if op == '=' {
        Some((2u8, 1u8))
    } else if op == '+' || op == '-' {
        if prefix {
            Some((99u8, 9u8))
        } else {
            Some((5u8, 6u8))
        }
    } else if op == '*' || op == '/' {
        Some((7u8, 8u8))
    } else if op == '!' {
        Some((11u8, 100u8))
    } else if op == '.' {
        Some((14u8, 13u8))
    } else {
        None
    }
}

/// Compute left/right binding power for an operator.
pub fn binding_power(op: char, prefix: bool) -> (res: Option<(u8, u8)>)
    ensures
        res == spec_binding_power(op, prefix),
{
    match op {
        '0'..='9' | 'a'..='z' | 'A'..='Z' => Some((99, 100)),
        '(' => Some((99, 0)),
        '=' => Some((2, 1)),
        '+' | '-' => if prefix {
            Some((99, 9))
        } else {
            Some((5, 6))
        },
        '*' | '/' => Some((7, 8)),
        '!' => Some((11, 100)),
        '.' => Some((14, 13)),
        _ => None,
    }
}

} // verus!
