//! The parser: binding-power climbing over the tokens of a line.

use crate::lexer::{tokens_of, Lexer};
use crate::power::{binding_power, spec_binding_power};
use crate::tree::{node, option_view, well_formed, Tree, S};
use vstd::prelude::*;

verus! {

/// Why a line has no parse tree.
#[derive(Debug, Clone, Copy, PartialEq, Eq)]
pub enum ParseError {
    /// An opening parenthesis whose sub-expression is not followed by a
    /// closing parenthesis.
    MalformedParenthesis,
    /// No token of the line can start an expression.
    NoExpression,
}

/// What parsing a sequence of tokens comes to.
pub ghost enum Parse {
    /// The climb stopped in front of `rest` with `tree` assembled (`None`
    /// where no token could start an expression).
    Done { tree: Option<Tree>, rest: Seq<char> },
    /// An opening parenthesis was not closed.
    Malformed,
}

/// The climb at one level: with `lhs` assembled so far, take operators from
/// the front of `tokens` as long as their left binding power is at least
/// `min_bp`, each with the operand that parsing at its right binding power
/// gives. An opening parenthesis stands for the expression up to its closing
/// parenthesis, which replaces `lhs`; any other token becomes a node over
/// `lhs` and its right operand.
///
/// An operand is parsed from fewer tokens than the climb was given and
/// leaves a suffix of them (`lemma_climb_rest`), so the first test on
/// `rest` below never fails; it is what makes the definition well-founded.
pub open spec fn climb(tokens: Seq<char>, lhs: Option<Tree>, min_bp: u8) -> Parse
    decreases tokens.len(),
{
    if tokens.len() == 0 {
        Parse::Done { tree: lhs, rest: tokens }
    } else {
        let token = tokens[0];
        match spec_binding_power(token, lhs is None) {
            Some((l_bp, r_bp)) if min_bp <= l_bp => {
                match climb(tokens.drop_first(), None, r_bp) {
                    Parse::Malformed => Parse::Malformed,
                    Parse::Done { tree: rhs, rest } => {
                        if rest.len() >= tokens.len() {
                            Parse::Malformed
                        } else if token == '(' {
                            if rest.len() > 0 && rest[0] == ')' {
                                climb(rest.drop_first(), rhs, min_bp)
                            } else {
                                Parse::Malformed
                            }
                        } else {
                            climb(rest, Some(node(token, lhs, rhs)), min_bp)
                        }
                    },
                }
            },
            _ => Parse::Done { tree: lhs, rest: tokens },
        }
    }
}

/// The longest expression at the front of `tokens` whose operators bind to
/// the left with at least `min_bp`.
pub open spec fn parse_bp(tokens: Seq<char>, min_bp: u8) -> Parse {
    climb(tokens, None, min_bp)
}

/// The parse of a line of text: the expression at the front of its tokens.
pub open spec fn parse_line(text: Seq<char>) -> Result<Tree, ParseError> {
    match parse_bp(tokens_of(text), 0) {
        Parse::Malformed => Err(ParseError::MalformedParenthesis),
        Parse::Done { tree: None, .. } => Err(ParseError::NoExpression),
        Parse::Done { tree: Some(t), .. } => Ok(t),
    }
}

/// A climb leaves a suffix of its tokens.
pub proof fn lemma_climb_rest(tokens: Seq<char>, lhs: Option<Tree>, min_bp: u8)
    ensures
        climb(tokens, lhs, min_bp) matches Parse::Done { rest, .. } ==> rest.len() <= tokens.len()
            && rest == tokens.subrange(tokens.len() - rest.len(), tokens.len() as int),
    decreases tokens.len(),
{
    if tokens.len() > 0 {
        let token = tokens[0];
        match spec_binding_power(token, lhs is None) {
            Some((l_bp, r_bp)) => {
                if min_bp <= l_bp {
                    let tail = tokens.drop_first();
                    lemma_climb_rest(tail, None, r_bp);
                    match climb(tail, None, r_bp) {
                        Parse::Malformed => {},
                        Parse::Done { tree: rhs, rest } => {
                            if token == '(' {
                                if rest.len() > 0 && rest[0] == ')' {
                                    lemma_climb_rest(rest.drop_first(), rhs, min_bp);
                                    let end = climb(rest.drop_first(), rhs, min_bp);
                                    if let Parse::Done { rest: last, .. } = end {
                                        assert(last =~= tokens.subrange(
                                            tokens.len() - last.len(),
                                            tokens.len() as int,
                                        ));
                                    }
                                }
                            } else {
                                let next = Some(node(token, lhs, rhs));
                                lemma_climb_rest(rest, next, min_bp);
                                let end = climb(rest, next, min_bp);
                                if let Parse::Done { rest: last, .. } = end {
                                    assert(last =~= tokens.subrange(
                                        tokens.len() - last.len(),
                                        tokens.len() as int,
                                    ));
                                }
                            }
                        },
                    }
                } else {
                    assert(tokens =~= tokens.subrange(0, tokens.len() as int));
                }
            },
            None => {
                assert(tokens =~= tokens.subrange(0, tokens.len() as int));
            },
        }
    } else {
        assert(tokens =~= tokens.subrange(0, tokens.len() as int));
    }
}

/// A climb from a well-formed left operand, or from none, assembles a
/// well-formed tree: an atom, a node over one operand, or a node over two.
pub proof fn lemma_climb_well_formed(tokens: Seq<char>, lhs: Option<Tree>, min_bp: u8)
    requires
        lhs matches Some(t) ==> well_formed(t),
    ensures
        climb(tokens, lhs, min_bp) matches Parse::Done { tree: Some(t), .. } ==> well_formed(t),
    decreases tokens.len(),
{
    if tokens.len() > 0 {
        let token = tokens[0];
        match spec_binding_power(token, lhs is None) {
            Some((l_bp, r_bp)) => {
                if min_bp <= l_bp {
                    let tail = tokens.drop_first();
                    lemma_climb_rest(tail, None, r_bp);
                    lemma_climb_well_formed(tail, None, r_bp);
                    match climb(tail, None, r_bp) {
                        Parse::Malformed => {},
                        Parse::Done { tree: rhs, rest } => {
                            if token == '(' {
                                if rest.len() > 0 && rest[0] == ')' {
                                    lemma_climb_well_formed(rest.drop_first(), rhs, min_bp);
                                }
                            } else {
                                let built = node(token, lhs, rhs);
                                assert(well_formed(built)) by {
                                    assert forall|i: int| 0 <= i < built.children.len() implies well_formed(
                                        #[trigger] built.children[i],
                                    ) by {
                                        if lhs is Some && i == 0 {
                                            assert(built.children[i] == lhs->0);
                                        } else {
                                            assert(built.children[i] == rhs->0);
                                        }
                                    }
                                }
                                lemma_climb_well_formed(rest, Some(built), min_bp);
                            }
                        },
                    }
                }
            },
            None => {},
        }
    }
}

/// Whether `res` is what the parse `parse` asks for: the tree and the tokens
/// left, or the error.
pub open spec fn agrees(res: Result<Option<S>, ParseError>, left: Seq<char>, parse: Parse) -> bool {
    match parse {
        Parse::Malformed => res == Err::<Option<S>, ParseError>(ParseError::MalformedParenthesis),
        Parse::Done { tree, rest } => res matches Ok(s) && option_view(s) == tree && left == rest,
    }
}

/// Parses the longest expression at the front of the lexer's tokens whose
/// operators bind to the left with at least `min_bp`, and leaves the lexer in
/// front of the first token that does not belong to it.
pub fn expr_bp(lexer: &mut Lexer, min_bp: u8) -> (res: Result<Option<S>, ParseError>)
    ensures
        agrees(res, final(lexer)@, parse_bp(old(lexer)@, min_bp)),
        final(lexer)@.len() <= old(lexer)@.len(),
        res matches Ok(Some(s)) ==> well_formed(s@),
    decreases old(lexer)@.len(),
{
    proof {
        lemma_climb_well_formed(lexer@, None, min_bp);
    }
    let mut lhs: Option<S> = None;
    loop
        invariant
            lexer@.len() <= old(lexer)@.len(),
            climb(lexer@, option_view(lhs), min_bp) == parse_bp(old(lexer)@, min_bp),
            parse_bp(old(lexer)@, min_bp) matches Parse::Done { tree: Some(t), .. } ==> well_formed(t),
        decreases lexer@.len(),
    {
        let ghost before = lexer@;
        let ghost lhs_view = option_view(lhs);
        let token = match lexer.peek() {
            Some(token) => token,
            None => return Ok(lhs),
        };
        let r_bp: u8 = match binding_power(token, lhs.is_none()) {
            Some((l_bp, r_bp)) => {
                if min_bp <= l_bp {
                    r_bp
                } else {
                    return Ok(lhs);
                }
            },
            None => return Ok(lhs),
        };
        lexer.next();
        proof {
            lemma_climb_rest(before.drop_first(), None, r_bp);
        }
        let rhs = match expr_bp(lexer, r_bp) {
            Ok(rhs) => rhs,
            Err(e) => return Err(e),
        };
        if token == '(' {
            match lexer.next() {
                Some(')') => {},
                _ => return Err(ParseError::MalformedParenthesis),
            }
            lhs = rhs;
            continue ;
        }
        let ghost rhs_view = option_view(rhs);
        let mut args: Vec<S> = Vec::new();
        if let Some(l) = lhs {
            args.push(l);
        }
        if let Some(r) = rhs {
            args.push(r);
        }
        let built = S::Cons(token, args);
        proof {
            built.lemma_view();
            assert(built@.children =~= node(token, lhs_view, rhs_view).children);
        }
        lhs = Some(built);
    }
}

/// Parses a line of text into its tree.
pub fn expr(input: &str) -> (res: Result<S, ParseError>)
    ensures
        match parse_line(input@) {
            Ok(tree) => res matches Ok(s) && s@ == tree,
            Err(e) => res == Err::<S, ParseError>(e),
        },
        res matches Ok(s) ==> well_formed(s@),
{
    let mut lexer = Lexer::new(input);
    match expr_bp(&mut lexer, 0) {
        Ok(Some(s)) => Ok(s),
        Ok(None) => Err(ParseError::NoExpression),
        Err(e) => Err(e),
    }
}

} // verus!
