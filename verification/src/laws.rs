//! What holds of the parser on whole families of inputs.

use crate::lexer::{is_blank, tokens_of};
use crate::parser::{climb, lemma_climb_rest, parse_bp, parse_line, Parse, ParseError};
use crate::power::{is_atom, spec_binding_power};
use crate::tree::{leaf, node, render, Tree};
use vstd::prelude::*;

verus! {

/// A token at which every climb stops: it has no binding power in either
/// position. A closing parenthesis is one.
pub open spec fn stops(c: char) -> bool {
    spec_binding_power(c, true) is None && spec_binding_power(c, false) is None
}

/// A line without blanks is its own sequence of tokens.
pub proof fn lemma_tokens_of_unblanked(text: Seq<char>)
    requires
        forall|i: int| 0 <= i < text.len() ==> !is_blank(text[i]),
    ensures
        tokens_of(text) == text,
    decreases text.len(),
{
    reveal(Seq::filter);
    if text.len() > 0 {
        lemma_tokens_of_unblanked(text.drop_last());
        assert(text.drop_last().push(text.last()) =~= text);
    }
}

/// Tokens that follow do not change a finished climb: where the climb over
/// `tokens` ends well, the climb over `tokens` followed by `suffix` gives the
/// same tree and leaves `suffix` behind what the first left, provided that
/// `suffix` begins with a token at which every climb stops.
pub proof fn lemma_climb_before_stop(
    tokens: Seq<char>,
    suffix: Seq<char>,
    lhs: Option<Tree>,
    min_bp: u8,
)
    requires
        suffix.len() > 0 ==> stops(suffix[0]),
        climb(tokens, lhs, min_bp) is Done,
    ensures
        climb(tokens + suffix, lhs, min_bp) == (Parse::Done {
            tree: climb(tokens, lhs, min_bp)->tree,
            rest: climb(tokens, lhs, min_bp)->rest + suffix,
        }),
    decreases tokens.len(),
{
    let all = tokens + suffix;
    if tokens.len() == 0 {
        assert(all =~= suffix);
        assert(tokens + suffix =~= suffix);
    } else {
        let token = tokens[0];
        assert(all[0] == token);
        match spec_binding_power(token, lhs is None) {
            Some((l_bp, r_bp)) => {
                if min_bp <= l_bp {
                    let tail = tokens.drop_first();
                    assert(all.drop_first() =~= tail + suffix);
                    lemma_climb_rest(tail, None, r_bp);
                    lemma_climb_before_stop(tail, suffix, None, r_bp);
                    let rhs = climb(tail, None, r_bp)->tree;
                    let rest = climb(tail, None, r_bp)->rest;
                    if token == '(' {
                        assert((rest + suffix)[0] == ')');
                        assert((rest + suffix).drop_first() =~= rest.drop_first() + suffix);
                        lemma_climb_before_stop(rest.drop_first(), suffix, rhs, min_bp);
                    } else {
                        lemma_climb_before_stop(rest, suffix, Some(node(token, lhs, rhs)), min_bp);
                    }
                }
            },
            None => {},
        }
    }
}

/// Parentheses are transparent: where `tokens` parse as a whole, the same
/// tokens between `(` and `)` parse as a whole to the same tree, at every
/// minimum binding power that lets an expression start.
pub proof fn lemma_parentheses_are_transparent(tokens: Seq<char>, min_bp: u8)
    requires
        min_bp <= 99,
        parse_bp(tokens, 0) is Done,
        parse_bp(tokens, 0)->rest.len() == 0,
    ensures
        parse_bp(seq!['('] + tokens + seq![')'], min_bp) == (Parse::Done {
            tree: parse_bp(tokens, 0)->tree,
            rest: Seq::empty(),
        }),
{
    let close = seq![')'];
    let all = seq!['('] + tokens + close;
    lemma_climb_before_stop(tokens, close, None, 0);
    assert(all.drop_first() =~= tokens + close);
    let rest = parse_bp(tokens, 0)->rest + close;
    assert(rest =~= close);
    assert(rest.drop_first() =~= Seq::<char>::empty());
    assert(all[0] == '(');
    let tree = parse_bp(tokens, 0)->tree;
    assert(climb(all.drop_first(), None, 0) == (Parse::Done { tree, rest }));
    assert(climb(rest.drop_first(), tree, min_bp) == (Parse::Done {
        tree,
        rest: Seq::empty(),
    }));
}

/// An atom inside `depth` pairs of parentheses.
pub open spec fn wrapped(atom: char, depth: nat) -> Seq<char>
    decreases depth,
{
    if depth == 0 {
        seq![atom]
    } else {
        seq!['('] + wrapped(atom, (depth - 1) as nat) + seq![')']
    }
}

/// A single atom parses to the tree that is only that atom.
pub proof fn lemma_atom_parses_to_leaf(atom: char, min_bp: u8)
    requires
        is_atom(atom),
        min_bp <= 99,
    ensures
        parse_bp(seq![atom], min_bp) == (Parse::Done {
            tree: Some(leaf(atom)),
            rest: Seq::empty(),
        }),
{
    let tokens = seq![atom];
    let tail = tokens.drop_first();
    assert(tail =~= Seq::<char>::empty());
    assert(climb(tail, None, 100) == (Parse::Done { tree: None, rest: tail }));
    assert(node(atom, None, None).children =~= leaf(atom).children);
    assert(climb(tail, Some(leaf(atom)), min_bp) == (Parse::Done {
        tree: Some(leaf(atom)),
        rest: tail,
    }));
}

/// An atom inside any number of pairs of parentheses parses to the tree that
/// is only that atom: no node stands for a parenthesis.
pub proof fn lemma_wrapped_atom_parses_to_leaf(atom: char, depth: nat, min_bp: u8)
    requires
        is_atom(atom),
        min_bp <= 99,
    ensures
        parse_bp(wrapped(atom, depth), min_bp) == (Parse::Done {
            tree: Some(leaf(atom)),
            rest: Seq::empty(),
        }),
    decreases depth,
{
    if depth == 0 {
        lemma_atom_parses_to_leaf(atom, min_bp);
    } else {
        lemma_wrapped_atom_parses_to_leaf(atom, (depth - 1) as nat, 0);
        lemma_parentheses_are_transparent(wrapped(atom, (depth - 1) as nat), min_bp);
    }
}

/// A wrapped atom holds no blank.
pub proof fn lemma_wrapped_is_unblanked(atom: char, depth: nat)
    requires
        is_atom(atom),
    ensures
        forall|i: int| 0 <= i < wrapped(atom, depth).len() ==> !is_blank(wrapped(atom, depth)[i]),
    decreases depth,
{
    let whole = wrapped(atom, depth);
    if depth > 0 {
        let inner = wrapped(atom, (depth - 1) as nat);
        lemma_wrapped_is_unblanked(atom, (depth - 1) as nat);
        assert forall|i: int| 0 <= i < whole.len() implies !is_blank(whole[i]) by {
            if 0 < i <= inner.len() {
                assert(whole[i] == inner[i - 1]);
            }
        }
    }
}

/// A line that is one atom inside any number of pairs of parentheses parses
/// to that atom, and the text of the tree is the atom alone.
pub proof fn lemma_wrapped_atom_line(atom: char, depth: nat)
    requires
        is_atom(atom),
    ensures
        parse_line(wrapped(atom, depth)) == Ok::<Tree, ParseError>(leaf(atom)),
        render(leaf(atom)) == seq![atom],
{
    lemma_wrapped_is_unblanked(atom, depth);
    lemma_tokens_of_unblanked(wrapped(atom, depth));
    lemma_wrapped_atom_parses_to_leaf(atom, depth, 0);
}

/// Parsing a single atom and printing the tree gives the atom back.
pub proof fn lemma_atom_round_trip(atom: char)
    requires
        is_atom(atom),
    ensures
        parse_line(seq![atom]) matches Ok(tree) && render(tree) == seq![atom],
{
    lemma_wrapped_atom_line(atom, 0);
}

/// Tokens that are atoms and parentheses only.
pub open spec fn plain(tokens: Seq<char>) -> bool {
    forall|i: int|
        0 <= i < tokens.len() ==> is_atom(#[trigger] tokens[i]) || tokens[i] == '(' || tokens[i]
            == ')'
}

/// No atom stands directly behind another atom or behind a closing
/// parenthesis: each atom is the first token or follows an opening
/// parenthesis.
pub open spec fn apart(tokens: Seq<char>) -> bool {
    forall|i: int| 0 < i < tokens.len() && is_atom(#[trigger] tokens[i]) ==> tokens[i - 1] == '('
}

/// No operand, or a single atom.
pub open spec fn at_most_an_atom(operand: Option<Tree>) -> bool {
    operand matches Some(t) ==> t.children.len() == 0 && is_atom(t.head)
}

/// Nothing can start an expression at the minimum binding power 100: the
/// parse takes no token and gives no tree.
pub proof fn lemma_nothing_starts_at_100(tokens: Seq<char>)
    ensures
        parse_bp(tokens, 100) == (Parse::Done { tree: None, rest: tokens }),
{
}

/// Over atoms and parentheses with the atoms apart, a climb that starts with
/// at most an atom in hand ends with at most an atom: no node with operands
/// is ever built.
pub proof fn lemma_plain_climb(tokens: Seq<char>, lhs: Option<Tree>, min_bp: u8)
    requires
        plain(tokens),
        apart(tokens),
        at_most_an_atom(lhs),
        lhs is Some && tokens.len() > 0 ==> !is_atom(tokens[0]),
    ensures
        climb(tokens, lhs, min_bp) matches Parse::Done { tree, .. } ==> at_most_an_atom(tree),
    decreases tokens.len(),
{
    if tokens.len() > 0 {
        let token = tokens[0];
        let tail = tokens.drop_first();
        assert(plain(tail)) by {
            assert forall|i: int| 0 <= i < tail.len() implies is_atom(#[trigger] tail[i]) || tail[i]
                == '(' || tail[i] == ')' by {
                assert(tail[i] == tokens[i + 1]);
            }
        }
        assert(apart(tail)) by {
            assert forall|i: int| 0 < i < tail.len() && is_atom(#[trigger] tail[i]) implies tail[i
                - 1] == '(' by {
                assert(tail[i] == tokens[i + 1]);
            }
        }
        if is_atom(token) && min_bp <= 99 {
            lemma_nothing_starts_at_100(tail);
            let built = node(token, lhs, None);
            assert(built.children =~= Seq::<Tree>::empty());
            if tail.len() > 0 {
                assert(tail[0] == tokens[1]);
            }
            lemma_plain_climb(tail, Some(built), min_bp);
        } else if token == '(' && min_bp <= 99 {
            lemma_plain_climb(tail, None, 0);
            lemma_climb_rest(tail, None, 0);
            match climb(tail, None, 0) {
                Parse::Malformed => {},
                Parse::Done { tree: rhs, rest } => {
                    if rest.len() > 0 && rest[0] == ')' {
                        let after = rest.drop_first();
                        let skip = tokens.len() - after.len();
                        assert forall|i: int| 0 <= i < after.len() implies after[i] == tokens[skip
                            + i] by {
                            assert(after[i] == rest[i + 1]);
                            assert(rest[i + 1] == tail[tail.len() - rest.len() + i + 1]);
                        }
                        assert(plain(after)) by {
                            assert forall|i: int| 0 <= i < after.len() implies is_atom(
                                #[trigger] after[i],
                            ) || after[i] == '(' || after[i] == ')' by {
                                assert(after[i] == tokens[skip + i]);
                            }
                        }
                        assert(apart(after)) by {
                            assert forall|i: int| 0 < i < after.len() && is_atom(
                                #[trigger] after[i],
                            ) implies after[i - 1] == '(' by {
                                assert(after[i] == tokens[skip + i]);
                                assert(after[i - 1] == tokens[skip + i - 1]);
                            }
                        }
                        if after.len() > 0 {
                            assert(after[0] == tokens[skip]);
                            assert(rest[0] == tail[tail.len() - rest.len()]);
                            assert(tokens[skip - 1] == ')');
                        }
                        lemma_plain_climb(after, rhs, min_bp);
                    }
                },
            }
        }
    }
}

/// A line of atoms and parentheses with the atoms apart has, if it parses,
/// a single atom for its tree, whose text is that atom alone.
pub proof fn lemma_plain_line(text: Seq<char>)
    requires
        plain(tokens_of(text)),
        apart(tokens_of(text)),
    ensures
        parse_line(text) matches Ok(tree) ==> is_atom(tree.head) && tree.children.len() == 0
            && render(tree) == seq![tree.head],
{
    lemma_plain_climb(tokens_of(text), None, 0);
}

/// An operator that stands between two operands.
pub open spec fn is_infix(op: char) -> bool {
    op == '=' || op == '+' || op == '-' || op == '*' || op == '/' || op == '.'
}

/// The left binding power of `op` behind a left operand.
pub open spec fn left_power(op: char) -> u8
    recommends
        is_infix(op),
{
    match spec_binding_power(op, false) {
        Some((l_bp, _)) => l_bp,
        None => 0u8,
    }
}

/// The right binding power of `op` behind a left operand.
pub open spec fn right_power(op: char) -> u8
    recommends
        is_infix(op),
{
    match spec_binding_power(op, false) {
        Some((_, r_bp)) => r_bp,
        None => 0u8,
    }
}

/// The tree of `op` over two operands.
pub open spec fn binary(op: char, lhs: Tree, rhs: Tree) -> Tree {
    node(op, Some(lhs), Some(rhs))
}

/// An atom at the front of the tokens, with no left operand in hand, becomes
/// the left operand of the climb over what follows it.
pub proof fn lemma_atom_first(atom: char, rest: Seq<char>, min_bp: u8)
    requires
        is_atom(atom),
        min_bp <= 99,
    ensures
        climb(seq![atom] + rest, None, min_bp) == climb(rest, Some(leaf(atom)), min_bp),
{
    let tokens = seq![atom] + rest;
    assert(tokens[0] == atom);
    assert(tokens.drop_first() =~= rest);
    lemma_nothing_starts_at_100(rest);
    assert(node(atom, None, None).children =~= leaf(atom).children);
}

/// Two infix operators between three atoms: the second operator takes the
/// middle atom exactly if its left binding power is at least the right
/// binding power of the first; otherwise the first operator takes it and its
/// tree becomes the left operand of the second. Hence `*` binds tighter than
/// `+`, a chain of `+ - * /` nests to the left, and a chain of `=` or of `.`
/// nests to the right.
pub proof fn lemma_two_operators(a: char, p: char, b: char, q: char, c: char)
    requires
        is_atom(a),
        is_atom(b),
        is_atom(c),
        is_infix(p),
        is_infix(q),
    ensures
        parse_bp(seq![a, p, b, q, c], 0) == (Parse::Done {
            tree: Some(
                if left_power(q) >= right_power(p) {
                    binary(p, leaf(a), binary(q, leaf(b), leaf(c)))
                } else {
                    binary(q, binary(p, leaf(a), leaf(b)), leaf(c))
                },
            ),
            rest: Seq::empty(),
        }),
{
    let t0 = seq![a, p, b, q, c];
    let t1 = seq![p, b, q, c];
    let t2 = seq![b, q, c];
    let t3 = seq![q, c];
    let t4 = seq![c];
    let t5 = Seq::<char>::empty();
    let r_p = right_power(p);
    let r_q = right_power(q);
    assert(t0 =~= seq![a] + t1);
    assert(t1.drop_first() =~= t2);
    assert(t2 =~= seq![b] + t3);
    assert(t3.drop_first() =~= t4);
    assert(t4 =~= seq![c] + t5);
    assert(t1[0] == p && t3[0] == q);
    lemma_atom_first(a, t1, 0);
    lemma_atom_first(b, t3, r_p);
    lemma_atom_first(c, t5, r_q);
    let last = Parse::Done { tree: Some(leaf(c)), rest: t5 };
    assert(climb(t5, Some(leaf(c)), r_q) == last);
    assert(climb(t4, None, r_q) == last);
    if left_power(q) >= r_p {
        let inner = binary(q, leaf(b), leaf(c));
        assert(climb(t5, Some(inner), r_p) == (Parse::Done { tree: Some(inner), rest: t5 }));
        assert(climb(t3, Some(leaf(b)), r_p) == (Parse::Done { tree: Some(inner), rest: t5 }));
        assert(climb(t2, None, r_p) == (Parse::Done { tree: Some(inner), rest: t5 }));
        let outer = binary(p, leaf(a), inner);
        assert(climb(t5, Some(outer), 0) == (Parse::Done { tree: Some(outer), rest: t5 }));
        assert(climb(t1, Some(leaf(a)), 0) == (Parse::Done { tree: Some(outer), rest: t5 }));
    } else {
        assert(climb(t3, Some(leaf(b)), r_p) == (Parse::Done { tree: Some(leaf(b)), rest: t3 }));
        assert(climb(t2, None, r_p) == (Parse::Done { tree: Some(leaf(b)), rest: t3 }));
        let inner = binary(p, leaf(a), leaf(b));
        let outer = binary(q, inner, leaf(c));
        assert(climb(t5, Some(outer), 0) == (Parse::Done { tree: Some(outer), rest: t5 }));
        assert(climb(t3, Some(inner), 0) == (Parse::Done { tree: Some(outer), rest: t5 }));
        assert(climb(t1, Some(leaf(a)), 0) == (Parse::Done { tree: Some(outer), rest: t5 }));
    }
}

/// The tree of `op` over one operand.
pub open spec fn unary(op: char, operand: Tree) -> Tree {
    Tree { head: op, children: seq![operand] }
}

/// A sign in front of `a q b`: the sign takes the atom alone where the
/// infix operator binds to the left with less than the sign's right binding
/// power 9 (`=`, `+`, `-`, `*`, `/`), and the whole of `a q b` otherwise (`.`).
pub proof fn lemma_sign_then_operator(sign: char, a: char, q: char, b: char)
    requires
        sign == '+' || sign == '-',
        is_atom(a),
        is_atom(b),
        is_infix(q),
    ensures
        parse_bp(seq![sign, a, q, b], 0) == (Parse::Done {
            tree: Some(
                if left_power(q) >= 9 {
                    unary(sign, binary(q, leaf(a), leaf(b)))
                } else {
                    binary(q, unary(sign, leaf(a)), leaf(b))
                },
            ),
            rest: Seq::empty(),
        }),
{
    let t0 = seq![sign, a, q, b];
    let t1 = seq![a, q, b];
    let t2 = seq![q, b];
    let t3 = seq![b];
    let t4 = Seq::<char>::empty();
    let r_q = right_power(q);
    assert(t0.drop_first() =~= t1);
    assert(t1 =~= seq![a] + t2);
    assert(t2.drop_first() =~= t3);
    assert(t3 =~= seq![b] + t4);
    assert(t0[0] == sign && t2[0] == q);
    lemma_atom_first(a, t2, 9);
    lemma_atom_first(b, t4, r_q);
    let last = Parse::Done { tree: Some(leaf(b)), rest: t4 };
    assert(climb(t4, Some(leaf(b)), r_q) == last);
    assert(climb(t3, None, r_q) == last);
    if left_power(q) >= 9 {
        let inner = binary(q, leaf(a), leaf(b));
        assert(climb(t4, Some(inner), 9) == (Parse::Done { tree: Some(inner), rest: t4 }));
        assert(climb(t2, Some(leaf(a)), 9) == (Parse::Done { tree: Some(inner), rest: t4 }));
        assert(climb(t1, None, 9) == (Parse::Done { tree: Some(inner), rest: t4 }));
        let outer = unary(sign, inner);
        assert(node(sign, None, Some(inner)).children =~= outer.children);
        assert(climb(t4, Some(outer), 0) == (Parse::Done { tree: Some(outer), rest: t4 }));
    } else {
        assert(climb(t2, Some(leaf(a)), 9) == (Parse::Done { tree: Some(leaf(a)), rest: t2 }));
        assert(climb(t1, None, 9) == (Parse::Done { tree: Some(leaf(a)), rest: t2 }));
        let inner = unary(sign, leaf(a));
        assert(node(sign, None, Some(leaf(a))).children =~= inner.children);
        let outer = binary(q, inner, leaf(b));
        assert(climb(t4, Some(outer), 0) == (Parse::Done { tree: Some(outer), rest: t4 }));
        assert(climb(t2, Some(inner), 0) == (Parse::Done { tree: Some(outer), rest: t4 }));
    }
}

/// `!` behind an atom is a node over the atom, and a second `!` is a node
/// over the first.
pub proof fn lemma_postfix(a: char)
    requires
        is_atom(a),
    ensures
        parse_bp(seq![a, '!'], 0) == (Parse::Done {
            tree: Some(unary('!', leaf(a))),
            rest: Seq::empty(),
        }),
        parse_bp(seq![a, '!', '!'], 0) == (Parse::Done {
            tree: Some(unary('!', unary('!', leaf(a)))),
            rest: Seq::empty(),
        }),
{
    let t0 = seq![a, '!', '!'];
    let t1 = seq!['!', '!'];
    let t2 = seq!['!'];
    let t3 = Seq::<char>::empty();
    let once = unary('!', leaf(a));
    let twice = unary('!', once);
    assert(t0 =~= seq![a] + t1);
    assert(seq![a, '!'] =~= seq![a] + t2);
    assert(t1.drop_first() =~= t2);
    assert(t2.drop_first() =~= t3);
    assert(t1[0] == '!' && t2[0] == '!');
    lemma_atom_first(a, t1, 0);
    lemma_atom_first(a, t2, 0);
    lemma_nothing_starts_at_100(t2);
    lemma_nothing_starts_at_100(t3);
    assert(node('!', Some(leaf(a)), None).children =~= once.children);
    assert(node('!', Some(once), None).children =~= twice.children);
    assert(climb(t3, Some(once), 0) == (Parse::Done { tree: Some(once), rest: t3 }));
    assert(climb(t2, Some(leaf(a)), 0) == (Parse::Done { tree: Some(once), rest: t3 }));
    assert(climb(t3, Some(twice), 0) == (Parse::Done { tree: Some(twice), rest: t3 }));
    assert(climb(t2, Some(once), 0) == (Parse::Done { tree: Some(twice), rest: t3 }));
    assert(climb(t1, Some(leaf(a)), 0) == (Parse::Done { tree: Some(twice), rest: t3 }));
}

} // verus!
