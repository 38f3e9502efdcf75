//! The lexer: the non-blank characters of a line, one token each, handed out
//! from left to right.

use vstd::prelude::*;

verus! {

/// An ASCII blank: space, tab, line feed, form feed or carriage return.
pub open spec fn is_blank(c: char) -> bool {
    c == ' ' || c == '\t' || c == '\n' || c == '\x0C' || c == '\r'
}

/// The tokens of a line: its characters without the blanks, in their order.
pub open spec fn tokens_of(text: Seq<char>) -> Seq<char> {
    text.filter(|c: char| !is_blank(c))
}

/// `char::is_ascii_whitespace`: true exactly of U+0020 space, U+0009 tab,
/// U+000A line feed, U+000C form feed and U+000D carriage return.
pub assume_specification[ char::is_ascii_whitespace ](c: &char) -> (b: bool)
    ensures
        b == is_blank(*c),
;

/// The tokens of a prefix grow with the prefix: one more character adds one
/// token, or none if it is a blank.
pub proof fn lemma_tokens_of_take(text: Seq<char>, i: int)
    requires
        0 <= i < text.len(),
    ensures
        tokens_of(text.take(i + 1)) == if is_blank(text[i]) {
            tokens_of(text.take(i))
        } else {
            tokens_of(text.take(i)).push(text[i])
        },
{
    reveal(Seq::filter);
    assert(text.take(i + 1).drop_last() =~= text.take(i));
}

/// The tokens of a line that have not been consumed yet.
pub struct Lexer {
    tokens: Vec<char>,
}

impl View for Lexer {
    type V = Seq<char>;

    /// The remaining tokens, the next one first.
    closed spec fn view(&self) -> Seq<char> {
        self.tokens@.reverse()
    }
}

impl Lexer {
    /// A lexer over the tokens of `input`.
    pub fn new(input: &str) -> (lexer: Lexer)
        ensures
            lexer@ == tokens_of(input@),
    {
        let mut forward: Vec<char> = Vec::new();
        proof {
            reveal(Seq::filter);
            assert(input@.take(0) =~= Seq::<char>::empty());
        }
        for c in it: input.chars()
            invariant
                it.seq() == input@,
                forward@ == tokens_of(input@.take(it.index())),
        {
            proof {
                lemma_tokens_of_take(input@, it.index());
            }
            if !c.is_ascii_whitespace() {
                forward.push(c);
            }
        }
        assert(input@.take(input@.len() as int) =~= input@);
        let mut tokens: Vec<char> = Vec::new();
        let mut i: usize = forward.len();
        while i > 0
            invariant
                i <= forward.len(),
                tokens@.len() == forward.len() - i,
                forall|j: int| 0 <= j < tokens@.len() ==> tokens@[j] == forward@[forward.len() - 1 - j],
            decreases i,
        {
            i -= 1;
            tokens.push(forward[i]);
        }
        assert(tokens@.reverse() =~= forward@);
        Lexer { tokens }
    }

    /// Hands out the next token and moves past it; `None` once the tokens
    /// are used up.
    pub fn next(&mut self) -> (token: Option<char>)
        ensures
            old(self)@.len() == 0 ==> token.is_none() && final(self)@ == old(self)@,
            old(self)@.len() > 0 ==> token == Some(old(self)@[0]) && final(self)@ == old(
                self,
            )@.drop_first(),
    {
        let token = self.tokens.pop();
        assert(old(self)@.len() > 0 ==> self.tokens@.reverse() =~= old(self).tokens@.reverse().drop_first());
        assert(old(self)@.len() == 0 ==> self.tokens@ =~= old(self).tokens@);
        token
    }

    /// The next token, which stays in place; `None` once the tokens are used
    /// up.
    pub fn peek(&mut self) -> (token: Option<char>)
        ensures
            *final(self) == *old(self),
            token == if old(self)@.len() == 0 {
                None
            } else {
                Some(old(self)@[0])
            },
    {
        let n: usize = self.tokens.len();
        if n == 0 {
            None
        } else {
            Some(self.tokens[n - 1])
        }
    }
}

} // verus!
