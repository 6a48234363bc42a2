use vstd::prelude::*;

verus! {

/// The eight Brainfuck commands: `+ - < > [ ] , .`
#[derive(Clone, Copy, Debug, PartialEq, Eq, Structural)]
pub enum TokenKind {
    Add,
    Sub,
    MoveLeft,
    MoveRight,
    LoopStart,
    LoopEnd,
    Input,
    Output,
}

/// A command and the byte offset at which it stands.
pub struct Token {
    pub(crate) kind: TokenKind,
    pub(crate) loc: usize,
}

impl View for Token {
    type V = (TokenKind, usize);

    closed spec fn view(&self) -> (TokenKind, usize) {
        (self.kind, self.loc)
    }
}

impl Token {
    pub(crate) fn make(kind: TokenKind, loc: usize) -> (r: Self)
        ensures
            r@ == (kind, loc),
    {
        Token { kind, loc }
    }

    pub fn kind(&self) -> (r: TokenKind)
        ensures
            r == self@.0,
    {
        self.kind
    }

    pub fn loc(&self) -> (r: usize)
        ensures
            r == self@.1,
    {
        self.loc
    }
}

} // verus!
