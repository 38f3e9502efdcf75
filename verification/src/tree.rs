//! The parse tree and its rendering as a fully parenthesised expression.

use vstd::prelude::*;

verus! {

/// The mathematical parse tree: a head character over an ordered sequence of
/// sub-trees. A tree without children is an atom.
pub ghost struct Tree {
    pub head: char,
    pub children: Seq<Tree>,
}

/// The tree that is only `head`.
pub open spec fn leaf(head: char) -> Tree {
    Tree { head, children: Seq::empty() }
}

/// The tree with head `head` over the operands that are present, the left
/// one first.
pub open spec fn node(head: char, lhs: Option<Tree>, rhs: Option<Tree>) -> Tree {
    Tree { head, children: operands(lhs) + operands(rhs) }
}

/// An optional operand as a sequence of no or one tree.
pub open spec fn operands(operand: Option<Tree>) -> Seq<Tree> {
    match operand {
        Some(t) => seq![t],
        None => Seq::empty(),
    }
}

/// A tree as the parser builds it: every node has no, one or two children.
pub open spec fn well_formed(t: Tree) -> bool
    decreases t,
{
    &&& t.children.len() <= 2
    &&& forall|i: int| 0 <= i < t.children.len() ==> well_formed(#[trigger] t.children[i])
}

/// The text of a tree: an atom is its head; any other tree is `(`, its head,
/// each child's text after one space, and `)`.
pub open spec fn render(t: Tree) -> Seq<char>
    decreases t, 1int,
{
    if t.children.len() == 0 {
        seq![t.head]
    } else {
        seq!['(', t.head] + render_children(t, t.children.len()) + seq![')']
    }
}

/// The text of the first `n` children of `t`, each after one space.
pub open spec fn render_children(t: Tree, n: nat) -> Seq<char>
    decreases t, 0int, n,
{
    if n == 0 || n > t.children.len() {
        Seq::empty()
    } else {
        render_children(t, (n - 1) as nat) + seq![' '] + render(t.children[n - 1])
    }
}

/// A parse tree: a head character over its operands, in the order in which
/// they were parsed.
pub enum S {
    Cons(char, Vec<S>),
}

impl S {
    /// The head character.
    pub open spec fn spec_head(&self) -> char {
        match self {
            S::Cons(head, _) => *head,
        }
    }

    /// The operands.
    pub open spec fn spec_rest(&self) -> Seq<S> {
        match self {
            S::Cons(_, rest) => rest@,
        }
    }
}

impl S {
    /// The views of the first `n` operands.
    pub open spec fn view_operands(&self, n: nat) -> Seq<Tree>
        decreases self, 0int, n,
    {
        if n == 0 || n > self.spec_rest().len() {
            Seq::empty()
        } else {
            self.view_operands((n - 1) as nat).push(self.spec_rest()[n - 1].view())
        }
    }

    /// The view of a tree is its head over the views of its operands.
    pub proof fn lemma_view(&self)
        ensures
            self@.head == self.spec_head(),
            self@.children.len() == self.spec_rest().len(),
            forall|j: int|
                0 <= j < self.spec_rest().len() ==> #[trigger] self@.children[j]
                    == self.spec_rest()[j]@,
    {
        self.lemma_view_operands(self.spec_rest().len());
    }

    proof fn lemma_view_operands(&self, n: nat)
        requires
            n <= self.spec_rest().len(),
        ensures
            self.view_operands(n).len() == n,
            forall|j: int|
                0 <= j < n ==> #[trigger] self.view_operands(n)[j] == self.spec_rest()[j]@,
        decreases n,
    {
        if n > 0 {
            self.lemma_view_operands((n - 1) as nat);
            assert(self.view_operands(n) == self.view_operands((n - 1) as nat).push(self.spec_rest()[n - 1].view()));
        }
    }
}

impl View for S {
    type V = Tree;

    open spec fn view(&self) -> Tree
        decreases self, 1int, 0nat,
    {
        Tree { head: self.spec_head(), children: self.view_operands(self.spec_rest().len()) }
    }
}

/// `String::push`: the character is appended to the end of the string, and
/// nothing else of it changes.
pub assume_specification[ String::push ](s: &mut String, ch: char)
    ensures
        final(s)@ == old(s)@.push(ch),
;

impl S {
    /// The text of the tree.
    pub fn to_string(&self) -> (out: String)
        ensures
            out@ == render(self@),
    {
        let mut out = String::new();
        self.write_to(&mut out);
        out
    }

    /// Appends the text of the tree to `out`.
    pub fn write_to(&self, out: &mut String)
        ensures
            final(out)@ == old(out)@ + render(self@),
        decreases self,
    {
        match self {
            S::Cons(head, rest) => {
                if rest.len() == 0 {
                    out.push(*head);
                    assert(out@ =~= old(out)@ + render(self@));
                } else {
                    out.push('(');
                    out.push(*head);
                    proof {
                        self.lemma_view();
                    }
                    let mut i: usize = 0;
                    while i < rest.len()
                        invariant
                            i <= rest.len(),
                            *self == S::Cons(*head, *rest),
                            self@.children.len() == rest@.len(),
                            forall|j: int| 0 <= j < rest@.len() ==> self@.children[j] == rest@[j]@,
                            out@ == old(out)@ + seq!['(', *head] + render_children(
                                self@,
                                i as nat,
                            ),
                        decreases rest.len() - i,
                    {
                        let ghost before = out@;
                        out.push(' ');
                        proof {
                            vstd::std_specs::vec::axiom_vec_index_decreases(*rest, i as int);
                        }
                        rest[i].write_to(out);
                        i += 1;
                        assert(out@ == before + seq![' '] + render(self@.children[i - 1])) by {
                            assert(before.push(' ') =~= before + seq![' ']);
                        }
                        assert(out@ =~= old(out)@ + seq!['(', *head] + render_children(
                            self@,
                            i as nat,
                        ));
                    }
                    out.push(')');
                    assert(out@ =~= old(out)@ + render(self@));
                }
            },
        }
    }
}

/// The view of an optional tree.
pub open spec fn option_view(s: Option<S>) -> Option<Tree> {
    match s {
        Some(s) => Some(s@),
        None => None,
    }
}

} // verus!
