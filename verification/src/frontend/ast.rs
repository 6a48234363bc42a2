use vstd::prelude::*;

verus! {

/// The source offsets `start..end` that a node was parsed from.
#[derive(Debug)]
pub struct Span {
    pub start: usize,
    pub end: usize,
}

impl Span {
    pub fn start(&self) -> (r: usize)
        ensures
            r == self.start,
    {
        self.start
    }

    pub fn end(&self) -> (r: usize)
        ensures
            r == self.end,
    {
        self.end
    }
}

/// What a node of the syntax tree does.
#[derive(Debug)]
pub enum ASTNodeKind {
    /// Add to the current cell, modulo 256.
    Add(i8),
    /// Move the data pointer.
    Move(i32),
    Input,
    Output,
    Loop { body: Vec<ASTNode> },
    Invalid(InvalidNode),
}

#[derive(Debug)]
pub struct ASTNode {
    pub kind: ASTNodeKind,
    pub span: Span,
}

impl ASTNode {
    pub fn kind(&self) -> (r: &ASTNodeKind)
        ensures
            r == &self.kind,
    {
        &self.kind
    }

    pub fn span(&self) -> (r: &Span)
        ensures
            r == &self.span,
    {
        &self.span
    }
}

/// A bracket without its partner.
#[derive(Debug, Clone, Copy, PartialEq, Eq, Structural)]
pub enum InvalidNode {
    /// A `[` that is never closed.
    OpenLoopStart,
    /// A `]` that closes nothing.
    OpenLoopEnd,
}

#[derive(Debug)]
pub struct AST {
    pub nodes: Vec<ASTNode>,
}

impl AST {
    pub fn nodes(&self) -> (r: &Vec<ASTNode>)
        ensures
            r == &self.nodes,
    {
        &self.nodes
    }
}

/// The mathematical shape of a node: a loop holds the models of its body.
pub enum NodeShape {
    Add(i8),
    Move(i32),
    Input,
    Output,
    Loop(Seq<NodeModel>),
    Invalid(InvalidNode),
}

/// The mathematical model of a syntax tree node.
pub struct NodeModel {
    pub shape: NodeShape,
    pub start: usize,
    pub end: usize,
}

pub open spec fn node_model(n: ASTNode) -> NodeModel
    decreases n,
{
    NodeModel {
        shape: match n.kind {
            ASTNodeKind::Add(k) => NodeShape::Add(k),
            ASTNodeKind::Move(k) => NodeShape::Move(k),
            ASTNodeKind::Input => NodeShape::Input,
            ASTNodeKind::Output => NodeShape::Output,
            ASTNodeKind::Loop { body } => NodeShape::Loop(nodes_model(body@)),
            ASTNodeKind::Invalid(i) => NodeShape::Invalid(i),
        },
        start: n.span.start,
        end: n.span.end,
    }
}

pub open spec fn nodes_model(s: Seq<ASTNode>) -> Seq<NodeModel>
    decreases s,
{
    if s.len() == 0 {
        Seq::empty()
    } else {
        nodes_model(s.subrange(0, s.len() - 1)).push(node_model(s[s.len() - 1]))
    }
}

/// The number of loops in a node, its own included.
pub open spec fn node_loops(n: NodeModel) -> nat
    decreases n,
{
    match n.shape {
        NodeShape::Loop(body) => 1 + seq_loops(body),
        _ => 0,
    }
}

/// The number of loops in a node sequence.
pub open spec fn seq_loops(ns: Seq<NodeModel>) -> nat
    decreases ns,
{
    if ns.len() == 0 {
        0
    } else {
        node_loops(ns[0]) + seq_loops(ns.subrange(1, ns.len() as int))
    }
}

/// How far the moves in a node take the data pointer at most: the sum of
/// the sizes of its moves.
pub open spec fn node_moves(n: NodeModel) -> nat
    decreases n,
{
    match n.shape {
        NodeShape::Move(k) => (if k < 0 {
            -k
        } else {
            k as int
        }) as nat,
        NodeShape::Loop(body) => seq_moves(body),
        _ => 0,
    }
}

/// The sum of the sizes of the moves in a node sequence.
pub open spec fn seq_moves(ns: Seq<NodeModel>) -> nat
    decreases ns,
{
    if ns.len() == 0 {
        0
    } else {
        node_moves(ns[0]) + seq_moves(ns.subrange(1, ns.len() as int))
    }
}

/// Summing moves distributes over a node put in front of a sequence.
pub proof fn lemma_seq_moves_cons(n: NodeModel, rest: Seq<NodeModel>)
    ensures
        seq_moves(seq![n] + rest) == node_moves(n) + seq_moves(rest),
{
    let s = seq![n] + rest;
    assert(s[0] == n);
    assert(s.subrange(1, s.len() as int) =~= rest);
}

/// A node is valid when it and every node inside it are no bracket without
/// its partner.
pub open spec fn node_valid(n: NodeModel) -> bool
    decreases n,
{
    match n.shape {
        NodeShape::Loop(body) => seq_valid(body),
        NodeShape::Invalid(_) => false,
        _ => true,
    }
}

/// Every node of the sequence is valid.
pub open spec fn seq_valid(ns: Seq<NodeModel>) -> bool
    decreases ns,
{
    if ns.len() == 0 {
        true
    } else {
        node_valid(ns[0]) && seq_valid(ns.subrange(1, ns.len() as int))
    }
}

/// Validity distributes over a node put in front of a sequence.
pub proof fn lemma_seq_valid_cons(n: NodeModel, rest: Seq<NodeModel>)
    ensures
        seq_valid(seq![n] + rest) == (node_valid(n) && seq_valid(rest)),
{
    let s = seq![n] + rest;
    assert(s[0] == n);
    assert(s.subrange(1, s.len() as int) =~= rest);
}

/// Counting loops distributes over a node put in front of a sequence.
pub proof fn lemma_seq_loops_cons(n: NodeModel, rest: Seq<NodeModel>)
    ensures
        seq_loops(seq![n] + rest) == node_loops(n) + seq_loops(rest),
{
    let s = seq![n] + rest;
    assert(s[0] == n);
    assert(s.subrange(1, s.len() as int) =~= rest);
}

impl View for ASTNode {
    type V = NodeModel;

    open spec fn view(&self) -> NodeModel {
        node_model(*self)
    }
}

impl View for AST {
    type V = Seq<NodeModel>;

    open spec fn view(&self) -> Seq<NodeModel> {
        nodes_model(self.nodes@)
    }
}

pub proof fn lemma_nodes_model_push(s: Seq<ASTNode>, n: ASTNode)
    ensures
        nodes_model(s.push(n)) == nodes_model(s).push(node_model(n)),
{
    assert(s.push(n).subrange(0, s.len() as int) =~= s);
}

pub proof fn lemma_nodes_model_index(s: Seq<ASTNode>)
    ensures
        nodes_model(s).len() == s.len(),
        forall|i: int| 0 <= i < s.len() ==> #[trigger] nodes_model(s)[i] == node_model(s[i]),
    decreases s.len(),
{
    if s.len() > 0 {
        let init = s.subrange(0, s.len() - 1);
        lemma_nodes_model_index(init);
        assert forall|i: int| 0 <= i < s.len() implies #[trigger] nodes_model(s)[i] == node_model(s[i]) by {
            if i < s.len() - 1 {
                assert(init[i] == s[i]);
            }
        }
    }
}

} // verus!
