use vstd::prelude::*;

use crate::bf_lexer::token::{Token, TokenKind};

verus! {

/// The command that a byte stands for, if it stands for one.
pub open spec fn command_of(b: u8) -> Option<TokenKind> {
    if b == 43 {
        Some(TokenKind::Add)
    } else if b == 45 {
        Some(TokenKind::Sub)
    } else if b == 60 {
        Some(TokenKind::MoveLeft)
    } else if b == 62 {
        Some(TokenKind::MoveRight)
    } else if b == 91 {
        Some(TokenKind::LoopStart)
    } else if b == 93 {
        Some(TokenKind::LoopEnd)
    } else if b == 44 {
        Some(TokenKind::Input)
    } else if b == 46 {
        Some(TokenKind::Output)
    } else {
        None
    }
}

/// Each command byte is read as the command its character denotes:
/// `+` adds, `-` subtracts, `<` moves left, `>` moves right, `[` and `]`
/// open and close a loop, `,` reads and `.` writes; no other byte is a
/// command.
pub proof fn law_bytes_are_read_as_their_commands(b: u8)
    ensures
        (command_of(b) == Some(TokenKind::Add)) == (b == '+' as u8),
        (command_of(b) == Some(TokenKind::Sub)) == (b == '-' as u8),
        (command_of(b) == Some(TokenKind::MoveLeft)) == (b == '<' as u8),
        (command_of(b) == Some(TokenKind::MoveRight)) == (b == '>' as u8),
        (command_of(b) == Some(TokenKind::LoopStart)) == (b == '[' as u8),
        (command_of(b) == Some(TokenKind::LoopEnd)) == (b == ']' as u8),
        (command_of(b) == Some(TokenKind::Input)) == (b == ',' as u8),
        (command_of(b) == Some(TokenKind::Output)) == (b == '.' as u8),
        command_of(b) is None == !(b == '+' as u8 || b == '-' as u8 || b == '<' as u8 || b == '>' as u8
            || b == '[' as u8 || b == ']' as u8 || b == ',' as u8 || b == '.' as u8),
{
    assert('+' as u8 == 43 && '-' as u8 == 45 && '<' as u8 == 60 && '>' as u8 == 62);
    assert('[' as u8 == 91 && ']' as u8 == 93 && ',' as u8 == 44 && '.' as u8 == 46);
}

/// Reads one byte per call; every byte must be a command.
pub struct Lexer<'a> {
    raw: &'a [u8],
    cursor: usize,
}

impl<'a> View for Lexer<'a> {
    /// The bytes and the offset of the next one to read.
    type V = (Seq<u8>, usize);

    closed spec fn view(&self) -> (Seq<u8>, usize) {
        (self.raw@, self.cursor)
    }
}

impl<'a> Lexer<'a> {
    pub fn new(raw: &'a [u8]) -> (r: Self)
        ensures
            r@ == (raw@, 0usize),
    {
        Self { raw, cursor: 0 }
    }

    /// The token of the byte at the cursor, or `None` past the end; the
    /// cursor moves on by one either way.
    pub fn next(&mut self) -> (r: Option<Token>)
        requires
            old(self)@.1 < usize::MAX,
            old(self)@.1 < old(self)@.0.len() ==> command_of(old(self)@.0[old(self)@.1 as int]) is Some,
        ensures
            final(self)@ == (old(self)@.0, (old(self)@.1 + 1) as usize),
            old(self)@.1 < old(self)@.0.len() ==> (r matches Some(t) && t@ == (
                command_of(old(self)@.0[old(self)@.1 as int]).unwrap(),
                old(self)@.1,
            )),
            old(self)@.1 >= old(self)@.0.len() ==> r is None,
    {
        let cur = self.cursor;
        self.cursor += 1;

        if cur >= self.raw.len() {
            return None;
        }
        let c = self.raw[cur];
        if c == 43 {
            Some(Token::make(TokenKind::Add, cur))
        } else if c == 45 {
            Some(Token::make(TokenKind::Sub, cur))
        } else if c == 60 {
            Some(Token::make(TokenKind::MoveLeft, cur))
        } else if c == 62 {
            Some(Token::make(TokenKind::MoveRight, cur))
        } else if c == 91 {
            Some(Token::make(TokenKind::LoopStart, cur))
        } else if c == 93 {
            Some(Token::make(TokenKind::LoopEnd, cur))
        } else if c == 44 {
            Some(Token::make(TokenKind::Input, cur))
        } else {
            Some(Token::make(TokenKind::Output, cur))
        }
    }
}

} // verus!
