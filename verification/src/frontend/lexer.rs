use vstd::prelude::*;
use vstd::string::StringSliceAdditionalSpecFns;
use vstd::utf8::*;

verus! {

/// The eight Brainfuck commands: `+ - < > [ ] , .`
#[derive(Clone, Copy, Debug, PartialEq, Eq, Structural)]
pub enum TokenKind {
    Add,
    Sub,
    MoveLeft,
    MoveRight,
    LoopStart,
    LoopEnd,
    Input,
    Output,
}

/// The command that a source byte stands for, if it stands for one.
pub open spec fn kind_of_byte(b: u8) -> Option<TokenKind> {
    if b == 43 {
        Some(TokenKind::Add)
    } else if b == 45 {
        Some(TokenKind::Sub)
    } else if b == 60 {
        Some(TokenKind::MoveLeft)
    } else if b == 62 {
        Some(TokenKind::MoveRight)
    } else if b == 91 {
        Some(TokenKind::LoopStart)
    } else if b == 93 {
        Some(TokenKind::LoopEnd)
    } else if b == 44 {
        Some(TokenKind::Input)
    } else if b == 46 {
        Some(TokenKind::Output)
    } else {
        None
    }
}

/// The tokens of `bytes` from offset `i` on: one `(kind, offset)` pair for each
/// byte that is a command, in order; every other byte is a comment.
pub open spec fn lex_from(bytes: Seq<u8>, i: int) -> Seq<(TokenKind, usize)>
    decreases bytes.len() - i,
{
    if i < 0 || i >= bytes.len() {
        Seq::empty()
    } else {
        match kind_of_byte(bytes[i]) {
            Some(k) => seq![(k, i as usize)] + lex_from(bytes, i + 1),
            None => lex_from(bytes, i + 1),
        }
    }
}

/// The tokens of a whole source text, given as its UTF-8 bytes.
pub open spec fn lex(bytes: Seq<u8>) -> Seq<(TokenKind, usize)> {
    lex_from(bytes, 0)
}

proof fn lemma_lex_from(bytes: Seq<u8>, i: int)
    requires
        0 <= i,
        bytes.len() <= usize::MAX,
    ensures
        ({
            let t = lex_from(bytes, i);
            &&& forall|a: int|
                0 <= a < t.len() ==> i <= #[trigger] t[a].1 < bytes.len() && kind_of_byte(
                    bytes[t[a].1 as int],
                ) == Some(t[a].0)
            &&& forall|a: int, b: int| 0 <= a < b < t.len() ==> #[trigger] t[a].1 < #[trigger] t[b].1
            &&& forall|p: int|
                i <= p < bytes.len() && #[trigger] kind_of_byte(bytes[p]) is Some ==> exists|a: int|
                    0 <= a < t.len() && t[a].1 == p
        }),
    decreases bytes.len() - i,
{
    if i < bytes.len() {
        lemma_lex_from(bytes, i + 1);
        let rest = lex_from(bytes, i + 1);
        let t = lex_from(bytes, i);
        if let Some(k) = kind_of_byte(bytes[i]) {
            assert(t == seq![(k, i as usize)] + rest);
            assert forall|a: int| 0 <= a < t.len() implies i <= #[trigger] t[a].1 < bytes.len()
                && kind_of_byte(bytes[t[a].1 as int]) == Some(t[a].0) by {
                if a > 0 {
                    assert(t[a] == rest[a - 1]);
                }
            }
            assert forall|a: int, b: int| 0 <= a < b < t.len() implies #[trigger] t[a].1
                < #[trigger] t[b].1 by {
                assert(t[b] == rest[b - 1]);
                if a > 0 {
                    assert(t[a] == rest[a - 1]);
                }
            }
            assert forall|p: int| i <= p < bytes.len() && #[trigger] kind_of_byte(bytes[p]) is Some implies exists|a: int|
                0 <= a < t.len() && t[a].1 == p by {
                if p == i {
                    assert(t[0].1 == p);
                } else {
                    let a = choose|a: int| 0 <= a < rest.len() && rest[a].1 == p;
                    assert(t[a + 1].1 == p);
                }
            }
        }
    }
}

/// A source gives at most one token per byte.
pub proof fn lemma_lex_len(bytes: Seq<u8>, i: int)
    requires
        0 <= i <= bytes.len(),
    ensures
        lex_from(bytes, i).len() <= bytes.len() - i,
    decreases bytes.len() - i,
{
    if i < bytes.len() {
        lemma_lex_len(bytes, i + 1);
    }
}

/// Lexing reads the commands and nothing else: each token is a command byte
/// at its offset, the offsets increase, and every command byte gives a token.
pub proof fn law_lex_reads_exactly_the_commands(bytes: Seq<u8>)
    requires
        bytes.len() <= usize::MAX,
    ensures
        forall|a: int|
            0 <= a < lex(bytes).len() ==> #[trigger] lex(bytes)[a].1 < bytes.len() && kind_of_byte(
                bytes[lex(bytes)[a].1 as int],
            ) == Some(lex(bytes)[a].0),
        forall|a: int, b: int|
            0 <= a < b < lex(bytes).len() ==> #[trigger] lex(bytes)[a].1 < #[trigger] lex(bytes)[b].1,
        forall|p: int|
            0 <= p < bytes.len() && #[trigger] kind_of_byte(bytes[p]) is Some ==> exists|a: int|
                0 <= a < lex(bytes).len() && lex(bytes)[a].1 == p,
{
    lemma_lex_from(bytes, 0);
}

/// The command that a character stands for, if it stands for one.
pub open spec fn char_command(c: char) -> Option<TokenKind> {
    if c == '+' {
        Some(TokenKind::Add)
    } else if c == '-' {
        Some(TokenKind::Sub)
    } else if c == '<' {
        Some(TokenKind::MoveLeft)
    } else if c == '>' {
        Some(TokenKind::MoveRight)
    } else if c == '[' {
        Some(TokenKind::LoopStart)
    } else if c == ']' {
        Some(TokenKind::LoopEnd)
    } else if c == ',' {
        Some(TokenKind::Input)
    } else if c == '.' {
        Some(TokenKind::Output)
    } else {
        None
    }
}

/// The tokens of the characters `cs`, the first of which starts at byte
/// offset `off`: one `(kind, byte offset)` pair for each command character,
/// in order, each character taking the bytes of its UTF-8 encoding (the
/// offsets that `char_indices` gives).
pub open spec fn lex_chars(cs: Seq<char>, off: int) -> Seq<(TokenKind, usize)>
    decreases cs.len(),
{
    if cs.len() == 0 {
        Seq::empty()
    } else {
        (match char_command(cs[0]) {
            Some(k) => seq![(k, off as usize)],
            None => Seq::empty(),
        }) + lex_chars(cs.drop_first(), off + encode_scalar(cs[0] as u32).len())
    }
}

proof fn lemma_ascii_command(c: char)
    requires
        (c as u32) <= 0x7F,
    ensures
        encode_scalar(c as u32) == seq![(c as u32) as u8],
        kind_of_byte((c as u32) as u8) == char_command(c),
{
    let v = c as u32;
    assert((v & 0x7F) as u8 == v as u8) by (bit_vector)
        requires
            v <= 0x7F,
    ;
    assert(v as u8 == v);
}

proof fn lemma_wide_char_no_command(c: char)
    requires
        (c as u32) > 0x7F,
    ensures
        encode_scalar(c as u32).len() >= 2,
        forall|j: int|
            0 <= j < encode_scalar(c as u32).len() ==> kind_of_byte(
                #[trigger] encode_scalar(c as u32)[j],
            ) is None,
        char_command(c) is None,
{
    let v = c as u32;
    assert(is_scalar(v));
    assert(forall|x: u8| #[trigger] (0x80u8 | x) >= 0x80u8) by (bit_vector);
    assert(forall|x: u8| #[trigger] (0xC0u8 | x) >= 0x80u8) by (bit_vector);
    assert(forall|x: u8| #[trigger] (0xE0u8 | x) >= 0x80u8) by (bit_vector);
    assert(forall|x: u8| #[trigger] (0xF0u8 | x) >= 0x80u8) by (bit_vector);
    assert forall|j: int| 0 <= j < encode_scalar(v).len() implies (#[trigger] encode_scalar(v)[j])
        >= 0x80 by {
        assert(last_continuation_byte(v) == (0x80u8 | ((v & 0x3F) as u8)));
        assert(leading_byte_width_2(v) == (0xC0u8 | (((v >> 6) & 0x1F) as u8)));
        if has_width_3_encoding(v) || has_width_4_encoding(v) {
            assert(second_last_continuation_byte(v) == (0x80u8 | (((v >> 6) & 0x3F) as u8)));
            assert(leading_byte_width_3(v) == (0xE0u8 | (((v >> 12) & 0x0F) as u8)));
        }
        if has_width_4_encoding(v) {
            assert(third_last_continuation_byte(v) == (0x80u8 | (((v >> 12) & 0x3F) as u8)));
            assert(leading_byte_width_4(v) == (0xF0u8 | (((v >> 18) & 0x7) as u8)));
        }
    }
}

proof fn lemma_lex_skip(bytes: Seq<u8>, i: int, w: int)
    requires
        0 <= i,
        0 <= w,
        i + w <= bytes.len(),
        forall|j: int| i <= j < i + w ==> kind_of_byte(#[trigger] bytes[j]) is None,
    ensures
        lex_from(bytes, i) == lex_from(bytes, i + w),
    decreases w,
{
    if w > 0 {
        assert(kind_of_byte(bytes[i]) is None);
        lemma_lex_skip(bytes, i + 1, w - 1);
    }
}

proof fn lemma_lex_chars(prefix: Seq<u8>, cs: Seq<char>)
    ensures
        lex_from(prefix + encode_utf8(cs), prefix.len() as int) == lex_chars(cs, prefix.len() as int),
    decreases cs.len(),
{
    let p = prefix.len() as int;
    let bytes = prefix + encode_utf8(cs);
    if cs.len() == 0 {
        assert(encode_utf8(cs) =~= Seq::<u8>::empty());
    } else {
        let c = cs[0];
        let e = encode_scalar(c as u32);
        let rest = cs.drop_first();
        let prefix2 = prefix + e;
        assert(bytes =~= prefix2 + encode_utf8(rest));
        lemma_lex_chars(prefix2, rest);
        if (c as u32) <= 0x7F {
            lemma_ascii_command(c);
            assert(bytes[p] == e[0]);
        } else {
            lemma_wide_char_no_command(c);
            assert forall|j: int| p <= j < p + e.len() implies kind_of_byte(#[trigger] bytes[j]) is None by {
                assert(bytes[j] == e[j - p]);
            }
            lemma_lex_skip(bytes, p, e.len() as int);
        }
    }
}

/// Lexing over characters: the tokens of a text are its command
/// characters, in order, each with the byte offset at which the character
/// starts in the text's UTF-8 encoding; every other character is skipped.
pub proof fn law_lex_over_chars(cs: Seq<char>)
    ensures
        lex(encode_utf8(cs)) == lex_chars(cs, 0),
{
    lemma_lex_chars(Seq::empty(), cs);
    assert(Seq::<u8>::empty() + encode_utf8(cs) =~= encode_utf8(cs));
}

/// A command together with the byte offset at which it stands in the source.
pub struct Token {
    kind: TokenKind,
    loc: usize,
}

impl Token {
    /// A token never stands at the last representable offset, so the offset
    /// one past it is always representable.
    #[verifier::type_invariant]
    closed spec fn inv(self) -> bool {
        self.loc < usize::MAX
    }

    pub fn kind(&self) -> (r: TokenKind)
        ensures
            r == self@.0,
    {
        self.kind
    }

    pub fn loc(&self) -> (r: usize)
        ensures
            r == self@.1,
            r < usize::MAX,
    {
        proof {
            use_type_invariant(self);
        }
        self.loc
    }
}

impl View for Token {
    type V = (TokenKind, usize);

    closed spec fn view(&self) -> (TokenKind, usize) {
        (self.kind, self.loc)
    }
}

/// A stream of the tokens of one source text.
pub struct Lexer<'a> {
    raw: &'a [u8],
    cursor: usize,
}

impl<'a> View for Lexer<'a> {
    /// The tokens that are still to come.
    type V = Seq<(TokenKind, usize)>;

    closed spec fn view(&self) -> Seq<(TokenKind, usize)> {
        lex_from(self.raw@, self.cursor as int)
    }
}

fn kind_of(b: u8) -> (r: Option<TokenKind>)
    ensures
        r == kind_of_byte(b),
{
    if b == 43 {
        Some(TokenKind::Add)
    } else if b == 45 {
        Some(TokenKind::Sub)
    } else if b == 60 {
        Some(TokenKind::MoveLeft)
    } else if b == 62 {
        Some(TokenKind::MoveRight)
    } else if b == 91 {
        Some(TokenKind::LoopStart)
    } else if b == 93 {
        Some(TokenKind::LoopEnd)
    } else if b == 44 {
        Some(TokenKind::Input)
    } else if b == 46 {
        Some(TokenKind::Output)
    } else {
        None
    }
}

impl<'a> Lexer<'a> {
    /// The tokens of `raw`. Each token that the lexer will yield stands at
    /// a byte of `raw` that is the command of its kind, the offsets
    /// increase, and every command byte gives a token.
    pub fn new(raw: &'a str) -> (r: Self)
        ensures
            r@ == lex(raw.spec_bytes()),
            r@ == lex_chars(raw@, 0),
            forall|a: int|
                0 <= a < r@.len() ==> #[trigger] r@[a].1 < raw.spec_bytes().len() && kind_of_byte(
                    raw.spec_bytes()[r@[a].1 as int],
                ) == Some(r@[a].0),
            forall|a: int, b: int| 0 <= a < b < r@.len() ==> #[trigger] r@[a].1 < #[trigger] r@[b].1,
            forall|p: int|
                0 <= p < raw.spec_bytes().len() && #[trigger] kind_of_byte(raw.spec_bytes()[p]) is Some
                    ==> exists|a: int| 0 <= a < r@.len() && r@[a].1 == p,
    {
        proof {
            law_lex_over_chars(raw@);
        }
        let bytes = raw.as_bytes();
        proof {
            // The bytes fit in a slice, so their count fits in a `usize`.
            assert(bytes@.len() == bytes.len());
            law_lex_reads_exactly_the_commands(bytes@);
        }
        Lexer { raw: bytes, cursor: 0 }
    }

    /// The next token, skipping the bytes that are no command.
    pub fn next(&mut self) -> (r: Option<Token>)
        ensures
            old(self)@.len() == 0 ==> r is None && final(self)@.len() == 0,
            old(self)@.len() > 0 ==> (r matches Some(t) && t@ == old(self)@[0]
                && final(self)@ == old(self)@.drop_first()),
    {
        while self.cursor < self.raw.len()
            invariant
                self@ == old(self)@,
                self.raw == old(self).raw,
            decreases self.raw@.len() - self.cursor,
        {
            let offs = self.cursor;
            self.cursor = self.cursor + 1;
            match kind_of(self.raw[offs]) {
                Some(kind) => {
                    assert(old(self)@ == seq![(kind, offs)] + self@);
                    assert(old(self)@.drop_first() =~= self@);
                    return Some(Token { kind, loc: offs });
                },
                None => {},
            }
        }
        None
    }

    /// All the tokens that are still to come, in order.
    pub fn collect(self) -> (r: Vec<Token>)
        ensures
            token_views(r@) == self@,
    {
        let mut lexer = self;
        let mut tokens: Vec<Token> = Vec::new();
        loop
            invariant
                token_views(tokens@) + lexer@ == self@,
            ensures
                token_views(tokens@) == self@,
            decreases lexer@.len(),
        {
            match lexer.next() {
                Some(t) => {
                    proof {
                        lemma_token_views_push(tokens@, t);
                    }
                    tokens.push(t);
                },
                None => {
                    assert(token_views(tokens@) + lexer@ =~= token_views(tokens@));
                    break;
                },
            }
        }
        tokens
    }
}

/// The `(kind, offset)` pairs of a sequence of tokens.
pub open spec fn token_views(ts: Seq<Token>) -> Seq<(TokenKind, usize)> {
    ts.map_values(|t: Token| t@)
}

proof fn lemma_token_views_push(ts: Seq<Token>, t: Token)
    ensures
        token_views(ts.push(t)) == token_views(ts).push(t@),
{
    assert(token_views(ts.push(t)) =~= token_views(ts).push(t@));
}

} // verus!
