use vstd::prelude::*;

use crate::frontend::ast::{
    lemma_nodes_model_push, lemma_seq_loops_cons, lemma_seq_moves_cons, node_moves, seq_moves, lemma_seq_valid_cons, node_loops, node_valid,
    nodes_model, seq_loops, seq_valid, ASTNode, ASTNodeKind, InvalidNode, NodeModel, NodeShape, Span,
    AST,
};
use crate::frontend::lexer::{token_views, Token, TokenKind};

verus! {

/// The node that a command other than a bracket stands for.
pub open spec fn command_shape(k: TokenKind) -> NodeShape {
    match k {
        TokenKind::Add => NodeShape::Add(1i8),
        TokenKind::Sub => NodeShape::Add(-1i8),
        TokenKind::MoveLeft => NodeShape::Move(-1i32),
        TokenKind::MoveRight => NodeShape::Move(1i32),
        TokenKind::Input => NodeShape::Input,
        TokenKind::Output => NodeShape::Output,
        TokenKind::LoopStart => NodeShape::Invalid(InvalidNode::OpenLoopStart),
        TokenKind::LoopEnd => NodeShape::Invalid(InvalidNode::OpenLoopEnd),
    }
}

/// A node that covers the single token at offset `loc`.
pub open spec fn single_node(shape: NodeShape, loc: usize) -> NodeModel {
    NodeModel { shape, start: loc, end: (loc + 1) as usize }
}

/// Tokens left from position `pos` on.
pub open spec fn tokens_left(toks: Seq<(TokenKind, usize)>, pos: int) -> int {
    if 0 <= pos < toks.len() {
        toks.len() - pos
    } else {
        0
    }
}

/// `p` where it lies past `pos`, else the position just past `pos`.
/// (Parsing a loop always moves past its `[`; this keeps the recursion
/// below well-founded without leaning on that fact.)
pub open spec fn advance(p: int, pos: int) -> int {
    if p > pos {
        p
    } else {
        pos + 1
    }
}

/// The items of a loop body from token `pos` on, up to and including the `]`
/// that closes the loop: the items, the position after them, the offset of the
/// last token looked at (starting from `last`), and whether a `]` was found.
pub open spec fn parse_body(toks: Seq<(TokenKind, usize)>, pos: int, last: usize) -> (
    Seq<NodeModel>,
    int,
    usize,
    bool,
)
    decreases tokens_left(toks, pos), 1int,
{
    if pos < 0 || pos >= toks.len() {
        (Seq::empty(), pos, last, false)
    } else {
        let k = toks[pos].0;
        let loc = toks[pos].1;
        if k == TokenKind::LoopEnd {
            (Seq::empty(), pos + 1, loc, true)
        } else {
            let (node, p1) = if k == TokenKind::LoopStart {
                parse_loop(toks, pos)
            } else {
                (single_node(command_shape(k), loc), pos + 1)
            };
            let rest = parse_body(toks, advance(p1, pos), loc);
            (seq![node] + rest.0, rest.1, rest.2, rest.3)
        }
    }
}

/// The node of the loop whose `[` is token `pos`, and the position after it.
/// A loop without its `]` becomes `Invalid(OpenLoopStart)`; its span runs
/// from the `[` to one past the last token looked at.
pub open spec fn parse_loop(toks: Seq<(TokenKind, usize)>, pos: int) -> (NodeModel, int)
    decreases tokens_left(toks, pos), 0int,
{
    if pos < 0 || pos >= toks.len() {
        (single_node(NodeShape::Invalid(InvalidNode::OpenLoopStart), 0), pos + 1)
    } else {
        let start = toks[pos].1;
        let b = parse_body(toks, pos + 1, start);
        let shape = if b.3 {
            NodeShape::Loop(b.0)
        } else {
            NodeShape::Invalid(InvalidNode::OpenLoopStart)
        };
        (NodeModel { shape, start, end: (b.2 + 1) as usize }, b.1)
    }
}

/// The top-level nodes from token `pos` on; a `]` that closes nothing
/// becomes `Invalid(OpenLoopEnd)`.
pub open spec fn parse_items(toks: Seq<(TokenKind, usize)>, pos: int) -> Seq<NodeModel>
    decreases tokens_left(toks, pos),
{
    if pos < 0 || pos >= toks.len() {
        Seq::empty()
    } else {
        let k = toks[pos].0;
        let loc = toks[pos].1;
        if k == TokenKind::LoopStart {
            let (node, p1) = parse_loop(toks, pos);
            seq![node] + parse_items(toks, advance(p1, pos))
        } else {
            seq![single_node(command_shape(k), loc)] + parse_items(toks, pos + 1)
        }
    }
}

/// The syntax tree of a whole token sequence.
pub open spec fn parse_tokens(toks: Seq<(TokenKind, usize)>) -> Seq<NodeModel> {
    parse_items(toks, 0)
}

/// Parsing a loop body moves forward, every loop in it took its own `[`
/// and `]` and every move its own token: twice the loops, plus the sizes of
/// the moves, plus the closing `]`, is at most the tokens taken.
pub proof fn lemma_parse_body_loops(toks: Seq<(TokenKind, usize)>, pos: int, last: usize)
    requires
        0 <= pos <= toks.len(),
    ensures
        ({
            let b = parse_body(toks, pos, last);
            &&& pos <= b.1 <= toks.len()
            &&& 2 * seq_loops(b.0) + seq_moves(b.0) + (if b.3 {
                1int
            } else {
                0int
            }) <= b.1 - pos
        }),
    decreases tokens_left(toks, pos), 1int,
{
    if pos < toks.len() {
        let k = toks[pos].0;
        let loc = toks[pos].1;
        if k != TokenKind::LoopEnd {
            let (node, p1) = if k == TokenKind::LoopStart {
                lemma_parse_loop_loops(toks, pos);
                parse_loop(toks, pos)
            } else {
                (single_node(command_shape(k), loc), pos + 1)
            };
            lemma_parse_body_loops(toks, p1, loc);
            lemma_seq_loops_cons(node, parse_body(toks, p1, loc).0);
            lemma_seq_moves_cons(node, parse_body(toks, p1, loc).0);
        }
    }
}

/// A parsed loop moves past its `[`, and takes two tokens per loop and one
/// per unit of move in it.
pub proof fn lemma_parse_loop_loops(toks: Seq<(TokenKind, usize)>, pos: int)
    requires
        0 <= pos < toks.len(),
    ensures
        pos < parse_loop(toks, pos).1 <= toks.len(),
        2 * node_loops(parse_loop(toks, pos).0) + node_moves(parse_loop(toks, pos).0) <= parse_loop(
            toks,
            pos,
        ).1 - pos,
    decreases tokens_left(toks, pos), 0int,
{
    lemma_parse_body_loops(toks, pos + 1, toks[pos].1);
}

/// A tree parsed from `n` tokens holds at most `n / 2` loops, and its moves
/// sum to at most `n` in size.
pub proof fn lemma_parse_items_loops(toks: Seq<(TokenKind, usize)>, pos: int)
    requires
        0 <= pos <= toks.len(),
    ensures
        2 * seq_loops(parse_items(toks, pos)) + seq_moves(parse_items(toks, pos)) <= toks.len() - pos,
    decreases tokens_left(toks, pos),
{
    if pos < toks.len() {
        let k = toks[pos].0;
        let loc = toks[pos].1;
        if k == TokenKind::LoopStart {
            lemma_parse_loop_loops(toks, pos);
            let (node, p1) = parse_loop(toks, pos);
            lemma_parse_items_loops(toks, p1);
            lemma_seq_loops_cons(node, parse_items(toks, p1));
            lemma_seq_moves_cons(node, parse_items(toks, p1));
        } else {
            lemma_parse_items_loops(toks, pos + 1);
            lemma_seq_loops_cons(single_node(command_shape(k), loc), parse_items(toks, pos + 1));
            lemma_seq_moves_cons(single_node(command_shape(k), loc), parse_items(toks, pos + 1));
        }
    }
}

/// The brackets from token `pos` on close the `d` loops open before them:
/// the count of open loops never drops below zero and ends at zero.
pub open spec fn balanced_from(toks: Seq<(TokenKind, usize)>, pos: int, d: nat) -> bool
    decreases tokens_left(toks, pos),
{
    if pos < 0 || pos >= toks.len() {
        d == 0
    } else if toks[pos].0 == TokenKind::LoopStart {
        balanced_from(toks, pos + 1, d + 1)
    } else if toks[pos].0 == TokenKind::LoopEnd {
        d > 0 && balanced_from(toks, pos + 1, (d - 1) as nat)
    } else {
        balanced_from(toks, pos + 1, d)
    }
}

/// Every `[` has its `]` and every `]` its `[`.
pub open spec fn brackets_balanced(toks: Seq<(TokenKind, usize)>) -> bool {
    balanced_from(toks, 0, 0)
}

/// A loop body closes exactly when the brackets after it balance one more
/// open loop; a closed body holds only valid nodes, and an open one runs to
/// the end of the tokens.
pub proof fn lemma_parse_body_balanced(
    toks: Seq<(TokenKind, usize)>,
    pos: int,
    last: usize,
    d: nat,
)
    requires
        0 <= pos <= toks.len(),
    ensures
        ({
            let b = parse_body(toks, pos, last);
            &&& balanced_from(toks, pos, d + 1) <==> (b.3 && balanced_from(toks, b.1, d))
            &&& b.3 ==> seq_valid(b.0)
            &&& !b.3 ==> b.1 == toks.len()
        }),
    decreases tokens_left(toks, pos), 1int,
{
    if pos < toks.len() {
        let k = toks[pos].0;
        let loc = toks[pos].1;
        if k == TokenKind::LoopEnd {
            assert(seq_valid(Seq::<NodeModel>::empty()));
        } else if k == TokenKind::LoopStart {
            lemma_parse_loop_loops(toks, pos);
            lemma_parse_loop_balanced(toks, pos, d + 1);
            let (node, p1) = parse_loop(toks, pos);
            lemma_parse_body_balanced(toks, p1, loc, d);
            lemma_seq_valid_cons(node, parse_body(toks, p1, loc).0);
            let inner = parse_body(toks, pos + 1, toks[pos].1);
            lemma_parse_body_balanced(toks, pos + 1, toks[pos].1, d + 1);
            if !inner.3 {
                assert(p1 == toks.len());
            }
        } else {
            lemma_parse_body_balanced(toks, pos + 1, loc, d);
            lemma_seq_valid_cons(single_node(command_shape(k), loc), parse_body(toks, pos + 1, loc).0);
        }
    }
}

/// The loop at `pos` is valid exactly when its `]` is found, and then the
/// brackets after it balance the loops that were open before it.
pub proof fn lemma_parse_loop_balanced(toks: Seq<(TokenKind, usize)>, pos: int, d: nat)
    requires
        0 <= pos < toks.len(),
        toks[pos].0 == TokenKind::LoopStart,
    ensures
        ({
            let (node, p1) = parse_loop(toks, pos);
            let inner = parse_body(toks, pos + 1, toks[pos].1);
            &&& node_valid(node) <==> inner.3
            &&& balanced_from(toks, pos, d) <==> (inner.3 && balanced_from(toks, p1, d))
            &&& !inner.3 ==> p1 == toks.len()
        }),
    decreases tokens_left(toks, pos), 0int,
{
    lemma_parse_body_balanced(toks, pos + 1, toks[pos].1, d);
}

/// The top-level nodes from `pos` on are all valid exactly when the brackets
/// from `pos` on balance.
pub proof fn lemma_parse_items_valid(toks: Seq<(TokenKind, usize)>, pos: int)
    requires
        0 <= pos <= toks.len(),
    ensures
        seq_valid(parse_items(toks, pos)) <==> balanced_from(toks, pos, 0),
    decreases tokens_left(toks, pos),
{
    if pos < toks.len() {
        let k = toks[pos].0;
        let loc = toks[pos].1;
        if k == TokenKind::LoopStart {
            lemma_parse_loop_loops(toks, pos);
            lemma_parse_loop_balanced(toks, pos, 0);
            let (node, p1) = parse_loop(toks, pos);
            lemma_parse_items_valid(toks, p1);
            lemma_seq_valid_cons(node, parse_items(toks, p1));
            if !parse_body(toks, pos + 1, toks[pos].1).3 {
                assert(balanced_from(toks, p1, 0));
            }
        } else {
            lemma_parse_items_valid(toks, pos + 1);
            lemma_seq_valid_cons(single_node(command_shape(k), loc), parse_items(toks, pos + 1));
        }
    } else {
        assert(seq_valid(Seq::<NodeModel>::empty()));
    }
}

/// A recursive-descent parser over a token sequence.
pub struct Parser {
    tokens: Vec<Token>,
    pos: usize,
}

impl View for Parser {
    /// The tokens and the position of the next one to parse.
    type V = (Seq<(TokenKind, usize)>, int);

    closed spec fn view(&self) -> (Seq<(TokenKind, usize)>, int) {
        (token_views(self.tokens@), self.pos as int)
    }
}

impl Parser {
    /// The position never runs past the end of the tokens.
    #[verifier::type_invariant]
    closed spec fn inv(self) -> bool {
        self.pos <= self.tokens.len()
    }

    pub fn new(tokens: Vec<Token>) -> (r: Self)
        ensures
            r@ == (token_views(tokens@), 0int),
    {
        Self { tokens, pos: 0 }
    }

    fn peek(&self) -> (r: Option<&Token>)
        ensures
            self.pos < self.tokens@.len() ==> r == Some(&self.tokens@[self.pos as int]),
            self.pos >= self.tokens@.len() ==> r is None,
    {
        if self.pos < self.tokens.len() {
            Some(&self.tokens[self.pos])
        } else {
            None
        }
    }

    fn step(&mut self)
        requires
            old(self).pos < old(self).tokens.len(),
        ensures
            final(self).tokens == old(self).tokens,
            final(self).pos == old(self).pos + 1,
    {
        self.pos += 1;
    }

    fn parse_one(&mut self, loc: usize, kind: ASTNodeKind) -> (r: ASTNode)
        requires
            old(self).pos < old(self).tokens@.len(),
            loc < usize::MAX,
        ensures
            final(self).tokens == old(self).tokens,
            final(self).pos == old(self).pos + 1,
            r.kind == kind,
            r.span.start == loc,
            r.span.end == loc + 1,
    {
        self.step();
        let span = Span { start: loc, end: loc + 1 };
        ASTNode { kind, span }
    }

    /// Parses a command other than a bracket.
    fn parse_command(&mut self, loc: usize, kind: TokenKind) -> (r: ASTNode)
        requires
            old(self).pos < old(self).tokens@.len(),
            loc < usize::MAX,
            kind != TokenKind::LoopStart,
            kind != TokenKind::LoopEnd,
        ensures
            final(self).tokens == old(self).tokens,
            final(self).pos == old(self).pos + 1,
            r@ == single_node(command_shape(kind), loc),
    {
        match kind {
            TokenKind::Add => self.parse_one(loc, ASTNodeKind::Add(1)),
            TokenKind::Sub => self.parse_one(loc, ASTNodeKind::Add(-1)),
            TokenKind::MoveLeft => self.parse_one(loc, ASTNodeKind::Move(-1)),
            TokenKind::MoveRight => self.parse_one(loc, ASTNodeKind::Move(1)),
            TokenKind::Input => self.parse_one(loc, ASTNodeKind::Input),
            _ => self.parse_one(loc, ASTNodeKind::Output),
        }
    }

    fn parse_loop(&mut self, start_loc: usize) -> (r: ASTNode)
        requires
            old(self).pos < old(self).tokens@.len(),
            old(self)@.0[old(self)@.1] == (TokenKind::LoopStart, start_loc),
            start_loc < usize::MAX,
        ensures
            final(self).tokens == old(self).tokens,
            (r@, final(self)@.1) == parse_loop(old(self)@.0, old(self)@.1),
            old(self).pos < final(self).pos <= final(self).tokens@.len(),
        decreases old(self).tokens@.len() - old(self).pos,
    {
        let ghost toks = self@.0;
        let ghost p0 = self@.1;
        self.step();

        let mut last_loc = start_loc;
        let mut body: Vec<ASTNode> = Vec::new();
        let is_closed;
        loop
            invariant_except_break
                self.tokens == old(self).tokens,
                toks == self@.0,
                p0 == old(self).pos,
                p0 < self.pos <= self.tokens@.len(),
                last_loc < usize::MAX,
                parse_body(toks, p0 + 1, start_loc) == {
                    let rest = parse_body(toks, self.pos as int, last_loc);
                    (nodes_model(body@) + rest.0, rest.1, rest.2, rest.3)
                },
            ensures
                self.tokens == old(self).tokens,
                p0 < self.pos <= self.tokens@.len(),
                last_loc < usize::MAX,
                parse_body(toks, p0 + 1, start_loc) == (
                    nodes_model(body@),
                    self.pos as int,
                    last_loc,
                    is_closed,
                ),
            decreases self.tokens@.len() - self.pos,
        {
            match self.peek() {
                Some(t) => {
                    last_loc = t.loc();
                    let kind = t.kind();
                    let ghost before = self.pos as int;
                    let ghost prev = body@;
                    let n = match kind {
                        TokenKind::LoopStart => self.parse_loop(last_loc),
                        TokenKind::LoopEnd => {
                            self.step();
                            is_closed = true;
                            assert(nodes_model(body@) + Seq::<NodeModel>::empty() =~= nodes_model(body@));
                            break;
                        },
                        _ => self.parse_command(last_loc, kind),
                    };
                    proof {
                        lemma_nodes_model_push(prev, n);
                        assert(advance(self.pos as int, before) == self.pos);
                        let rest = parse_body(toks, self.pos as int, last_loc);
                        assert(nodes_model(prev) + (seq![n@] + rest.0) =~= nodes_model(prev).push(n@) + rest.0);
                    }
                    body.push(n);
                },
                None => {
                    is_closed = false;
                    assert(nodes_model(body@) + Seq::<NodeModel>::empty() =~= nodes_model(body@));
                    break;
                },
            }
        }

        let span = Span { start: start_loc, end: last_loc + 1 };
        if is_closed {
            ASTNode { kind: ASTNodeKind::Loop { body }, span }
        } else {
            ASTNode { kind: ASTNodeKind::Invalid(InvalidNode::OpenLoopStart), span }
        }
    }

    /// The syntax tree of the tokens from the current position on.
    pub fn parse(self) -> (r: AST)
        ensures
            r@ == parse_items(self@.0, self@.1),
    {
        proof {
            use_type_invariant(&self);
        }
        let mut parser = self;
        let ghost toks = parser@.0;
        let mut nodes: Vec<ASTNode> = Vec::new();
        loop
            invariant_except_break
                toks == parser@.0,
                0 <= parser.pos <= parser.tokens@.len(),
                parse_items(toks, self@.1) == nodes_model(nodes@) + parse_items(toks, parser@.1),
            ensures
                parse_items(toks, self@.1) == nodes_model(nodes@),
            decreases parser.tokens@.len() - parser.pos,
        {
            match parser.peek() {
                Some(t) => {
                    let loc = t.loc();
                    let kind = t.kind();
                    let ghost before = parser.pos as int;
                    let ghost prev = nodes@;
                    let n = match kind {
                        TokenKind::LoopStart => parser.parse_loop(loc),
                        TokenKind::LoopEnd => parser.parse_one(
                            loc,
                            ASTNodeKind::Invalid(InvalidNode::OpenLoopEnd),
                        ),
                        _ => parser.parse_command(loc, kind),
                    };
                    proof {
                        lemma_nodes_model_push(prev, n);
                        assert(advance(parser.pos as int, before) == parser.pos);
                        let rest = parse_items(toks, parser.pos as int);
                        assert(nodes_model(prev) + (seq![n@] + rest) =~= nodes_model(prev).push(n@) + rest);
                    }
                    nodes.push(n);
                },
                None => {
                    assert(nodes_model(nodes@) + Seq::<NodeModel>::empty() =~= nodes_model(nodes@));
                    break;
                },
            }
        }
        AST { nodes }
    }
}

} // verus!
