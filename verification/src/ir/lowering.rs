use vstd::prelude::*;

use crate::frontend::ast::{
    lemma_nodes_model_index, node_loops, node_moves, seq_moves, node_model, node_valid, nodes_model, seq_loops, seq_valid,
    ASTNode, ASTNodeKind, NodeModel, NodeShape, AST,
};
use crate::ir::inst::{Inst, Label};
use crate::ir::optimizers::{lemma_move_weight_concat, move_weight};

verus! {

/// The instructions of one node, given the first free label number, and the
/// first free label number after it; `None` where the node or one inside it
/// is invalid. A loop takes two labels, one before its test and one after
/// its back jump, and its body is lowered after both are taken.
pub open spec fn lower_node(n: NodeModel, next: nat) -> Option<(Seq<Inst>, nat)>
    decreases n,
{
    match n.shape {
        NodeShape::Add(k) => Some((seq![Inst::Add(k)], next)),
        NodeShape::Move(k) => Some((seq![Inst::Move(k)], next)),
        NodeShape::Input => Some((seq![Inst::Input], next)),
        NodeShape::Output => Some((seq![Inst::Output], next)),
        NodeShape::Loop(body) => match lower_nodes(body, next + 2) {
            Some((b, after)) => Some(
                (
                    seq![
                        Inst::Label(Label(next as usize)),
                        Inst::JumpIfZero(Label((next + 1) as usize)),
                    ] + b + seq![
                        Inst::Jump(Label(next as usize)),
                        Inst::Label(Label((next + 1) as usize)),
                    ],
                    after,
                ),
            ),
            None => None,
        },
        NodeShape::Invalid(_) => None,
    }
}

/// The instructions of a node sequence, lowered in order.
pub open spec fn lower_nodes(ns: Seq<NodeModel>, next: nat) -> Option<(Seq<Inst>, nat)>
    decreases ns,
{
    if ns.len() == 0 {
        Some((Seq::empty(), next))
    } else {
        match lower_node(ns[0], next) {
            Some((a, mid)) => match lower_nodes(ns.subrange(1, ns.len() as int), mid) {
                Some((b, after)) => Some((a + b, after)),
                None => None,
            },
            None => None,
        }
    }
}

/// The instructions of a whole program, with labels numbered from zero.
pub open spec fn lower_program(ast: Seq<NodeModel>) -> Option<Seq<Inst>> {
    match lower_nodes(ast, 0) {
        Some((insts, _)) => Some(insts),
        None => None,
    }
}

/// Lowering takes exactly two labels per loop.
pub proof fn lemma_lower_node_labels(n: NodeModel, next: nat)
    ensures
        lower_node(n, next) matches Some((_, after)) ==> after == next + 2 * node_loops(n),
    decreases n,
{
    if let NodeShape::Loop(body) = n.shape {
        lemma_lower_nodes_labels(body, next + 2);
    }
}

/// Lowering takes exactly two labels per loop.
pub proof fn lemma_lower_nodes_labels(ns: Seq<NodeModel>, next: nat)
    ensures
        lower_nodes(ns, next) matches Some((_, after)) ==> after == next + 2 * seq_loops(ns),
    decreases ns,
{
    if ns.len() > 0 {
        lemma_lower_node_labels(ns[0], next);
        if let Some((_, mid)) = lower_node(ns[0], next) {
            lemma_lower_nodes_labels(ns.subrange(1, ns.len() as int), mid);
        }
    }
}

/// A node lowers exactly when it is valid.
pub proof fn lemma_lower_node_valid(n: NodeModel, next: nat)
    ensures
        lower_node(n, next) is Some <==> node_valid(n),
    decreases n,
{
    if let NodeShape::Loop(body) = n.shape {
        lemma_lower_nodes_valid(body, next + 2);
    }
}

/// A node sequence lowers exactly when all its nodes are valid.
pub proof fn lemma_lower_nodes_valid(ns: Seq<NodeModel>, next: nat)
    ensures
        lower_nodes(ns, next) is Some <==> seq_valid(ns),
    decreases ns,
{
    if ns.len() > 0 {
        lemma_lower_node_valid(ns[0], next);
        if let Some((_, mid)) = lower_node(ns[0], next) {
            lemma_lower_nodes_valid(ns.subrange(1, ns.len() as int), mid);
        }
    }
}

proof fn lemma_no_moves(s: Seq<Inst>)
    requires
        forall|i: int| 0 <= i < s.len() ==> !(#[trigger] s[i] is Move),
    ensures
        move_weight(s) == 0,
    decreases s.len(),
{
    if s.len() > 0 {
        assert(!(s[0] is Move));
        assert forall|i: int| 0 <= i < s.drop_first().len() implies !(#[trigger] s.drop_first()[i] is Move) by {
            assert(s.drop_first()[i] == s[i + 1]);
        }
        lemma_no_moves(s.drop_first());
    }
}

/// Lowering keeps the moves: the lowered moves sum to the tree's in size.
pub proof fn lemma_lower_node_moves(n: NodeModel, next: nat)
    ensures
        lower_node(n, next) matches Some((out, _)) ==> move_weight(out) == node_moves(n),
    decreases n,
{
    match n.shape {
        NodeShape::Loop(body) => {
            lemma_lower_nodes_moves(body, next + 2);
            if let Some((b, after)) = lower_nodes(body, next + 2) {
                let head = seq![
                    Inst::Label(Label(next as usize)),
                    Inst::JumpIfZero(Label((next + 1) as usize)),
                ];
                let tail = seq![Inst::Jump(Label(next as usize)), Inst::Label(Label((next + 1) as usize))];
                lemma_move_weight_concat(head + b, tail);
                lemma_move_weight_concat(head, b);
                lemma_no_moves(head);
                lemma_no_moves(tail);
                assert(lower_node(n, next) == Some((head + b + tail, after)));
            }
        },
        _ => {
            if let Some((out, _)) = lower_node(n, next) {
                assert(out.drop_first() =~= Seq::<Inst>::empty());
                assert(move_weight(out.drop_first()) == 0);
                assert(out.len() == 1);
            }
        },
    }
}

/// Lowering keeps the moves: the lowered moves sum to the tree's in size.
pub proof fn lemma_lower_nodes_moves(ns: Seq<NodeModel>, next: nat)
    ensures
        lower_nodes(ns, next) matches Some((out, _)) ==> move_weight(out) == seq_moves(ns),
    decreases ns,
{
    if ns.len() == 0 {
    } else {
        lemma_lower_node_moves(ns[0], next);
        if let Some((a, mid)) = lower_node(ns[0], next) {
            lemma_lower_nodes_moves(ns.subrange(1, ns.len() as int), mid);
            if let Some((b, _)) = lower_nodes(ns.subrange(1, ns.len() as int), mid) {
                lemma_move_weight_concat(a, b);
            }
        }
    }
}

/// Lowers a syntax tree to instructions.
pub struct Lowerer {
    label_count: usize,
    insts: Vec<Inst>,
}

impl View for Lowerer {
    /// The next free label number and the instructions emitted so far.
    type V = (nat, Seq<Inst>);

    closed spec fn view(&self) -> (nat, Seq<Inst>) {
        (self.label_count as nat, self.insts@)
    }
}

impl Default for Lowerer {
    fn default() -> (r: Self)
        ensures
            r@ == (0nat, Seq::<Inst>::empty()),
    {
        Self::new()
    }
}

impl Lowerer {
    pub fn new() -> (r: Self)
        ensures
            r@ == (0nat, Seq::<Inst>::empty()),
    {
        Self { label_count: 0, insts: Vec::new() }
    }

    fn new_label(&mut self) -> (r: Label)
        requires
            old(self).label_count < usize::MAX,
        ensures
            r == Label(old(self).label_count),
            final(self).label_count == old(self).label_count + 1,
            final(self).insts == old(self).insts,
    {
        let id = self.label_count;
        self.label_count += 1;
        Label(id)
    }

    /// The instructions of the tree after those emitted so far; `None` where
    /// the tree holds an invalid node.
    pub fn build(self, ast: &AST) -> (r: Option<Vec<Inst>>)
        requires
            self@.0 + 2 * seq_loops(ast@) <= usize::MAX,
        ensures
            match lower_nodes(ast@, self@.0) {
                Some((out, _)) => r matches Some(v) && v@ == self@.1 + out,
                None => r is None,
            },
    {
        let mut lowerer = self;
        match lowerer.lower(ast.nodes()) {
            Some(()) => Some(lowerer.insts),
            None => None,
        }
    }

    fn lower(&mut self, nodes: &Vec<ASTNode>) -> (r: Option<()>)
        requires
            old(self).label_count + 2 * seq_loops(nodes_model(nodes@)) <= usize::MAX,
        ensures
            match lower_nodes(nodes_model(nodes@), old(self).label_count as nat) {
                Some((out, after)) => r is Some && final(self).insts@ == old(self).insts@ + out
                    && final(self).label_count == after,
                None => r is None,
            },
        decreases nodes@,
    {
        let ghost ns = nodes_model(nodes@);
        let ghost l0 = self.label_count as nat;
        let ghost i0 = self.insts@;
        proof {
            lemma_nodes_model_index(nodes@);
            assert(ns.subrange(0, ns.len() as int) =~= ns);
        }
        let mut i: usize = 0;
        while i < nodes.len()
            invariant
                ns == nodes_model(nodes@),
                l0 == old(self).label_count,
                i0 == old(self).insts@,
                ns.len() == nodes@.len(),
                forall|j: int| 0 <= j < nodes@.len() ==> #[trigger] ns[j] == node_model(nodes@[j]),
                0 <= i <= nodes@.len(),
                self.label_count + 2 * seq_loops(ns.subrange(i as int, ns.len() as int)) <= usize::MAX,
                lower_nodes(ns, l0) == match lower_nodes(
                    ns.subrange(i as int, ns.len() as int),
                    self.label_count as nat,
                ) {
                    Some((rest, after)) => Some((self.insts@.subrange(i0.len() as int, self.insts@.len() as int) + rest, after)),
                    None => None,
                },
                i0.len() <= self.insts@.len(),
                self.insts@.subrange(0, i0.len() as int) == i0,
            decreases nodes@.len() - i,
        {
            let ghost tail = ns.subrange(i as int, ns.len() as int);
            let ghost emitted = self.insts@.subrange(i0.len() as int, self.insts@.len() as int);
            assert(tail.subrange(1, tail.len() as int) =~= ns.subrange(i + 1, ns.len() as int));
            assert(tail[0] == ns[i as int]);
            assert(seq_loops(tail) == node_loops(tail[0]) + seq_loops(ns.subrange(i + 1, ns.len() as int)));
            let n = &nodes[i];
            match n.kind() {
                ASTNodeKind::Add(k) => self.insts.push(Inst::Add(*k)),
                ASTNodeKind::Move(k) => self.insts.push(Inst::Move(*k)),
                ASTNodeKind::Input => self.insts.push(Inst::Input),
                ASTNodeKind::Output => self.insts.push(Inst::Output),
                ASTNodeKind::Loop { body } => {
                    let ghost l = self.label_count as nat;
                    let ghost bm = nodes_model(body@);
                    assert(tail[0].shape == NodeShape::Loop(bm));
                    assert(node_loops(tail[0]) == 1 + seq_loops(bm));
                    assert(seq_loops(tail) == node_loops(tail[0]) + seq_loops(
                        tail.subrange(1, tail.len() as int),
                    ));
                    assert(lower_node(tail[0], l) == match lower_nodes(bm, l + 2) {
                        Some((b, after)) => Some(
                            (
                                seq![
                                    Inst::Label(Label(l as usize)),
                                    Inst::JumpIfZero(Label((l + 1) as usize)),
                                ] + b + seq![
                                    Inst::Jump(Label(l as usize)),
                                    Inst::Label(Label((l + 1) as usize)),
                                ],
                                after,
                            ),
                        ),
                        None => None,
                    });
                    let loop_start = self.new_label();
                    let loop_end = self.new_label();

                    self.insts.push(Inst::Label(loop_start));
                    self.insts.push(Inst::JumpIfZero(loop_end));
                    assert(decreases_to!(nodes@ => body@)) by {
                        assert(decreases_to!(nodes@ => nodes@[i as int]));
                    }
                    proof {
                        lemma_lower_nodes_labels(bm, l + 2);
                    }
                    match self.lower(body) {
                        Some(()) => {},
                        None => {
                            assert(lower_nodes(tail, l) is None);
                            return None;
                        },
                    }
                    self.insts.push(Inst::Jump(loop_start));
                    self.insts.push(Inst::Label(loop_end));
                },
                _ => {
                    assert(lower_node(tail[0], self.label_count as nat) is None);
                    assert(lower_nodes(tail, self.label_count as nat) is None);
                    return None;
                },
            }
            proof {
                assert(self.insts@.subrange(0, i0.len() as int) =~= i0);
            }
            i += 1;
        }
        proof {
            assert(self.insts@.subrange(i0.len() as int, self.insts@.len() as int) + Seq::<Inst>::empty()
                =~= self.insts@.subrange(i0.len() as int, self.insts@.len() as int));
            assert(self.insts@ =~= i0 + self.insts@.subrange(i0.len() as int, self.insts@.len() as int));
        }
        Some(())
    }
}

} // verus!
