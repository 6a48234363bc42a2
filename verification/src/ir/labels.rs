use vstd::prelude::*;

use crate::frontend::ast::{node_loops, seq_loops, NodeModel, NodeShape};
use crate::ir::inst::{Inst, Label};
use crate::ir::lowering::{lemma_lower_nodes_labels, lower_node, lower_nodes, lower_program};
use crate::ir::optimizers::{
    add_run_len, insts_left, lemma_add_run_extent, lemma_move_run_extent, move_run_len, optimize,
    optimize_from,
};

verus! {

/// The names that `Label` instructions define, in order.
pub open spec fn label_names(s: Seq<Inst>) -> Seq<usize>
    decreases s.len(),
{
    if s.len() == 0 {
        Seq::empty()
    } else {
        (match s[0] {
            Inst::Label(Label(id)) => seq![id],
            _ => Seq::empty(),
        }) + label_names(s.subrange(1, s.len() as int))
    }
}

/// The names that jumps go to, in order.
pub open spec fn jump_targets(s: Seq<Inst>) -> Seq<usize>
    decreases s.len(),
{
    if s.len() == 0 {
        Seq::empty()
    } else {
        (match s[0] {
            Inst::Jump(Label(id)) => seq![id],
            Inst::JumpIfZero(Label(id)) => seq![id],
            _ => Seq::empty(),
        }) + jump_targets(s.subrange(1, s.len() as int))
    }
}

/// The reads and writes, in order.
pub open spec fn io_ops(s: Seq<Inst>) -> Seq<Inst>
    decreases s.len(),
{
    if s.len() == 0 {
        Seq::empty()
    } else {
        (match s[0] {
            Inst::Input => seq![Inst::Input],
            Inst::Output => seq![Inst::Output],
            _ => Seq::empty(),
        }) + io_ops(s.subrange(1, s.len() as int))
    }
}

/// No label is defined twice and every jump goes to a defined label, so the
/// `goto`s of the generated C are well defined.
pub open spec fn labels_well_formed(s: Seq<Inst>) -> bool {
    &&& label_names(s).no_duplicates()
    &&& forall|t: usize| #[trigger] jump_targets(s).contains(t) ==> label_names(s).contains(t)
}

proof fn lemma_collect_concat(a: Seq<Inst>, b: Seq<Inst>)
    ensures
        label_names(a + b) == label_names(a) + label_names(b),
        jump_targets(a + b) == jump_targets(a) + jump_targets(b),
        io_ops(a + b) == io_ops(a) + io_ops(b),
    decreases a.len(),
{
    if a.len() == 0 {
        assert(a + b =~= b);
        assert(label_names(a) + label_names(b) =~= label_names(b));
        assert(jump_targets(a) + jump_targets(b) =~= jump_targets(b));
        assert(io_ops(a) + io_ops(b) =~= io_ops(b));
    } else {
        let t = a.subrange(1, a.len() as int);
        lemma_collect_concat(t, b);
        assert((a + b)[0] == a[0]);
        assert((a + b).subrange(1, (a + b).len() as int) =~= t + b);
        assert(label_names(a + b) =~= label_names(a) + label_names(b));
        assert(jump_targets(a + b) =~= jump_targets(a) + jump_targets(b));
        assert(io_ops(a + b) =~= io_ops(a) + io_ops(b));
    }
}

proof fn lemma_no_dup_concat(x: Seq<usize>, y: Seq<usize>)
    requires
        x.no_duplicates(),
        y.no_duplicates(),
        forall|i: int, j: int| 0 <= i < x.len() && 0 <= j < y.len() ==> x[i] != y[j],
    ensures
        (x + y).no_duplicates(),
{
    let z = x + y;
    assert forall|i: int, j: int| 0 <= i < z.len() && 0 <= j < z.len() && i != j implies z[i]
        != z[j] by {
        if i < x.len() && j >= x.len() {
            assert(z[j] == y[j - x.len()]);
        } else if j < x.len() && i >= x.len() {
            assert(z[i] == y[i - x.len()]);
        }
    }
}

/// A name is among the label names exactly when some instruction defines it.
pub proof fn lemma_label_names_contains(x: Seq<Inst>, id: usize)
    ensures
        label_names(x).contains(id) <==> exists|k: int| 0 <= k < x.len() && x[k] == Inst::Label(Label(id)),
    decreases x.len(),
{
    if x.len() > 0 {
        let t = x.subrange(1, x.len() as int);
        lemma_label_names_contains(t, id);
        lemma_collect_one(x[0]);
        let h = label_names(seq![x[0]]);
        assert(x =~= seq![x[0]] + t);
        lemma_collect_concat(seq![x[0]], t);
        let names = h + label_names(t);
        if label_names(x).contains(id) {
            let m = choose|m: int| 0 <= m < names.len() && names[m] == id;
            if m < h.len() {
                assert(x[0] == Inst::Label(Label(id)));
            } else {
                assert(label_names(t)[m - h.len()] == id);
                let k = choose|k: int| 0 <= k < t.len() && t[k] == Inst::Label(Label(id));
                assert(x[k + 1] == Inst::Label(Label(id)));
            }
        }
        if exists|k: int| 0 <= k < x.len() && x[k] == Inst::Label(Label(id)) {
            let k = choose|k: int| 0 <= k < x.len() && x[k] == Inst::Label(Label(id));
            if k == 0 {
                assert(names[0] == id);
            } else {
                assert(t[k - 1] == Inst::Label(Label(id)));
                let m = choose|m: int| 0 <= m < label_names(t).len() && label_names(t)[m] == id;
                assert(names[h.len() + m] == id);
            }
        }
    }
}

/// Where no name is defined twice, a label stands at one place only.
pub proof fn lemma_label_unique(x: Seq<Inst>, i: int, j: int)
    requires
        label_names(x).no_duplicates(),
        0 <= i < x.len(),
        0 <= j < x.len(),
        x[i] is Label,
        x[i] == x[j],
    ensures
        i == j,
    decreases x.len(),
{
    let t = x.subrange(1, x.len() as int);
    lemma_collect_one(x[0]);
    assert(x =~= seq![x[0]] + t);
    lemma_collect_concat(seq![x[0]], t);
    let h = label_names(seq![x[0]]);
    let names = h + label_names(t);
    let id = match x[i] {
        Inst::Label(Label(id)) => id,
        _ => 0,
    };
    if i > 0 && j > 0 {
        assert(label_names(t).no_duplicates()) by {
            assert forall|a: int, b: int| 0 <= a < label_names(t).len() && 0 <= b < label_names(t).len() && a != b
                implies label_names(t)[a] != label_names(t)[b] by {
                assert(names[h.len() + a] == label_names(t)[a]);
                assert(names[h.len() + b] == label_names(t)[b]);
            }
        }
        assert(t[i - 1] == x[i]);
        assert(t[j - 1] == x[j]);
        lemma_label_unique(t, i - 1, j - 1);
    } else if i != j {
        let other = if i == 0 { j } else { i };
        assert(t[other - 1] == Inst::Label(Label(id)));
        lemma_label_names_contains(t, id);
        let m = choose|m: int| 0 <= m < label_names(t).len() && label_names(t)[m] == id;
        assert(names[0] == id);
        assert(names[h.len() + m] == id);
    }
}

/// The name `id` is defined by at most one `Label` instruction.
pub open spec fn defined_once(s: Seq<Inst>, id: usize) -> bool {
    forall|a: int, b: int|
        0 <= a < label_names(s).len() && 0 <= b < label_names(s).len() && #[trigger] label_names(s)[a]
            == id && #[trigger] label_names(s)[b] == id ==> a == b
}

/// Every name that a jump goes to is defined by at most one label; other
/// labels may repeat.
pub open spec fn jump_targets_unique(s: Seq<Inst>) -> bool {
    forall|t: usize| #[trigger] jump_targets(s).contains(t) ==> defined_once(s, t)
}

/// A name defined at most once stands at one place only.
pub proof fn lemma_label_once(x: Seq<Inst>, i: int, j: int, id: usize)
    requires
        defined_once(x, id),
        0 <= i < x.len(),
        0 <= j < x.len(),
        x[i] == Inst::Label(Label(id)),
        x[j] == x[i],
    ensures
        i == j,
    decreases x.len(),
{
    let t = x.subrange(1, x.len() as int);
    lemma_collect_one(x[0]);
    assert(x =~= seq![x[0]] + t);
    lemma_collect_concat(seq![x[0]], t);
    let h = label_names(seq![x[0]]);
    let names = h + label_names(t);
    if i > 0 && j > 0 {
        assert(defined_once(t, id)) by {
            assert forall|a: int, b: int|
                0 <= a < label_names(t).len() && 0 <= b < label_names(t).len() && #[trigger] label_names(
                    t,
                )[a] == id && #[trigger] label_names(t)[b] == id implies a == b by {
                assert(names[h.len() + a] == label_names(t)[a]);
                assert(names[h.len() + b] == label_names(t)[b]);
            }
        }
        assert(t[i - 1] == x[i]);
        assert(t[j - 1] == x[j]);
        lemma_label_once(t, i - 1, j - 1, id);
    } else if i != j {
        let other = if i == 0 {
            j
        } else {
            i
        };
        assert(t[other - 1] == Inst::Label(Label(id)));
        lemma_label_names_contains(t, id);
        let m = choose|m: int| 0 <= m < label_names(t).len() && label_names(t)[m] == id;
        assert(names[0] == id);
        assert(names[h.len() + m] == id);
    }
}

/// A jump's name is among the jump targets.
pub proof fn lemma_jump_targets_contains(x: Seq<Inst>, k: int, id: usize)
    requires
        0 <= k < x.len(),
        x[k] == Inst::Jump(Label(id)) || x[k] == Inst::JumpIfZero(Label(id)),
    ensures
        jump_targets(x).contains(id),
    decreases x.len(),
{
    let t = x.subrange(1, x.len() as int);
    lemma_collect_one(x[0]);
    assert(x =~= seq![x[0]] + t);
    lemma_collect_concat(seq![x[0]], t);
    let h = jump_targets(seq![x[0]]);
    if k == 0 {
        assert(jump_targets(x)[0] == id);
    } else {
        assert(t[k - 1] == x[k]);
        lemma_jump_targets_contains(t, k - 1, id);
        let m = choose|m: int| 0 <= m < jump_targets(t).len() && jump_targets(t)[m] == id;
        assert(jump_targets(x)[h.len() + m] == id);
    }
}

/// Where no name is defined twice, every jump target is defined at most
/// once.
pub proof fn lemma_unique_labels_unique_targets(s: Seq<Inst>)
    requires
        label_names(s).no_duplicates(),
    ensures
        jump_targets_unique(s),
{
}

/// What lowering with labels numbered from `lo` gives: labels `lo..hi`, each
/// defined once, and jumps only to them.
pub open spec fn labels_exactly(s: Seq<Inst>, lo: nat, hi: nat) -> bool {
    &&& label_names(s).no_duplicates()
    &&& forall|i: int| 0 <= i < label_names(s).len() ==> lo <= #[trigger] label_names(s)[i] < hi
    &&& forall|i: int| 0 <= i < jump_targets(s).len() ==> lo <= #[trigger] jump_targets(s)[i] < hi
    &&& forall|id: usize| lo <= id < hi ==> #[trigger] label_names(s).contains(id)
}

proof fn lemma_collect_one(i: Inst)
    ensures
        label_names(seq![i]) == match i {
            Inst::Label(Label(id)) => seq![id],
            _ => Seq::<usize>::empty(),
        },
        jump_targets(seq![i]) == match i {
            Inst::Jump(Label(id)) => seq![id],
            Inst::JumpIfZero(Label(id)) => seq![id],
            _ => Seq::<usize>::empty(),
        },
        io_ops(seq![i]) == match i {
            Inst::Input => seq![Inst::Input],
            Inst::Output => seq![Inst::Output],
            _ => Seq::<Inst>::empty(),
        },
{
    let s = seq![i];
    assert(s.subrange(1, 1) =~= Seq::<Inst>::empty());
    assert(label_names(s) =~= label_names(s));
    assert(label_names(s.subrange(1, 1)) =~= Seq::<usize>::empty());
    assert(jump_targets(s.subrange(1, 1)) =~= Seq::<usize>::empty());
    assert(io_ops(s.subrange(1, 1)) =~= Seq::<Inst>::empty());
    assert(label_names(s) =~= (match i {
        Inst::Label(Label(id)) => seq![id],
        _ => Seq::<usize>::empty(),
    }));
    assert(jump_targets(s) =~= (match i {
        Inst::Jump(Label(id)) => seq![id],
        Inst::JumpIfZero(Label(id)) => seq![id],
        _ => Seq::<usize>::empty(),
    }));
    assert(io_ops(s) =~= (match i {
        Inst::Input => seq![Inst::Input],
        Inst::Output => seq![Inst::Output],
        _ => Seq::<Inst>::empty(),
    }));
}

proof fn lemma_lower_node_labels_exactly(n: NodeModel, next: nat)
    requires
        next + 2 * node_loops(n) <= usize::MAX,
    ensures
        lower_node(n, next) matches Some((out, after)) ==> labels_exactly(out, next, after),
    decreases n,
{
    match n.shape {
        NodeShape::Loop(body) => {
            lemma_lower_nodes_labels_exactly(body, next + 2);
            if let Some((b, after)) = lower_nodes(body, next + 2) {
                lemma_lower_nodes_labels(body, next + 2);
                let n0 = next as usize;
                let n1 = (next + 1) as usize;
                let l0 = Label(n0);
                let l1 = Label(n1);
                let head = seq![Inst::Label(l0)] + seq![Inst::JumpIfZero(l1)];
                let tail = seq![Inst::Jump(l0)] + seq![Inst::Label(l1)];
                let out = head + b + tail;
                lemma_collect_one(Inst::Label(l0));
                lemma_collect_one(Inst::JumpIfZero(l1));
                lemma_collect_one(Inst::Jump(l0));
                lemma_collect_one(Inst::Label(l1));
                lemma_collect_concat(seq![Inst::Label(l0)], seq![Inst::JumpIfZero(l1)]);
                lemma_collect_concat(seq![Inst::Jump(l0)], seq![Inst::Label(l1)]);
                lemma_collect_concat(head, b);
                lemma_collect_concat(head + b, tail);
                assert(label_names(head) =~= seq![n0]);
                assert(jump_targets(head) =~= seq![n1]);
                assert(label_names(tail) =~= seq![n1]);
                assert(jump_targets(tail) =~= seq![n0]);
                assert(out == seq![Inst::Label(l0), Inst::JumpIfZero(l1)] + b + seq![
                    Inst::Jump(l0),
                    Inst::Label(l1),
                ]);
                let lb = label_names(b);
                let names = seq![n0] + lb + seq![n1];
                assert(label_names(out) == names);
                lemma_no_dup_concat(seq![n0], lb);
                lemma_no_dup_concat(seq![n0] + lb, seq![n1]);
                let jb = jump_targets(b);
                let jumps = seq![n1] + jb + seq![n0];
                assert(jump_targets(out) == jumps);
                assert forall|i: int| 0 <= i < jumps.len() implies next <= #[trigger] jumps[i]
                    < after by {
                    if 1 <= i < jumps.len() - 1 {
                        assert(jumps[i] == jb[i - 1]);
                    }
                }
                assert forall|i: int| 0 <= i < names.len() implies next <= #[trigger] names[i]
                    < after by {
                    if 1 <= i < names.len() - 1 {
                        assert(names[i] == lb[i - 1]);
                    }
                }
                assert forall|id: usize| next <= id < after implies #[trigger] names.contains(id) by {
                    if id == n0 {
                        assert(names[0] == id);
                    } else if id == n1 {
                        assert(names[names.len() - 1] == id);
                    } else {
                        assert(lb.contains(id));
                        let k = choose|k: int| 0 <= k < lb.len() && lb[k] == id;
                        assert(names[k + 1] == id);
                    }
                }
            }
        },
        _ => {
            if let Some((out, after)) = lower_node(n, next) {
                lemma_collect_one(out[0]);
                assert(out == seq![out[0]]);
                assert(label_names(out) =~= Seq::<usize>::empty());
                assert(jump_targets(out) =~= Seq::<usize>::empty());
            }
        },
    }
}

proof fn lemma_lower_nodes_labels_exactly(ns: Seq<NodeModel>, next: nat)
    requires
        next + 2 * seq_loops(ns) <= usize::MAX,
    ensures
        lower_nodes(ns, next) matches Some((out, after)) ==> labels_exactly(out, next, after),
    decreases ns,
{
    if ns.len() == 0 {
        assert(label_names(Seq::<Inst>::empty()) =~= Seq::<usize>::empty());
        assert(jump_targets(Seq::<Inst>::empty()) =~= Seq::<usize>::empty());
    } else {
        lemma_lower_node_labels_exactly(ns[0], next);
        if let Some((a, mid)) = lower_node(ns[0], next) {
            let rest = ns.subrange(1, ns.len() as int);
            crate::ir::lowering::lemma_lower_node_labels(ns[0], next);
            lemma_lower_nodes_labels_exactly(rest, mid);
            if let Some((b, after)) = lower_nodes(rest, mid) {
                lemma_lower_nodes_labels(rest, mid);
                lemma_collect_concat(a, b);
                let la = label_names(a);
                let lb = label_names(b);
                let ja = jump_targets(a);
                let jb = jump_targets(b);
                lemma_no_dup_concat(la, lb);
                let names = la + lb;
                let jumps = ja + jb;
                assert forall|i: int| 0 <= i < names.len() implies next <= #[trigger] names[i]
                    < after by {
                    if i >= la.len() {
                        assert(names[i] == lb[i - la.len()]);
                    }
                }
                assert forall|i: int| 0 <= i < jumps.len() implies next <= #[trigger] jumps[i]
                    < after by {
                    if i >= ja.len() {
                        assert(jumps[i] == jb[i - ja.len()]);
                    }
                }
                assert forall|id: usize| next <= id < after implies #[trigger] names.contains(id) by {
                    if id < mid {
                        assert(la.contains(id));
                        let k = choose|k: int| 0 <= k < la.len() && la[k] == id;
                        assert(names[k] == id);
                    } else {
                        assert(lb.contains(id));
                        let k = choose|k: int| 0 <= k < lb.len() && lb[k] == id;
                        assert(names[la.len() + k] == id);
                    }
                }
            }
        }
    }
}

/// Lowering a program whose labels fit in a `usize` defines each label
/// once and makes every jump go to a defined label.
pub proof fn law_lowered_labels_well_formed(ast: Seq<NodeModel>)
    requires
        2 * seq_loops(ast) <= usize::MAX,
    ensures
        lower_program(ast) matches Some(insts) ==> labels_well_formed(insts),
{
    lemma_lower_nodes_labels_exactly(ast, 0);
    if let Some((insts, after)) = lower_nodes(ast, 0) {
        assert forall|t: usize| #[trigger] jump_targets(insts).contains(t) implies label_names(
            insts,
        ).contains(t) by {
            let k = choose|k: int| 0 <= k < jump_targets(insts).len() && jump_targets(insts)[k] == t;
            assert(0 <= t < after);
            assert(label_names(insts).contains(t));
        }
    }
}

/// The instructions of `s` from `pos` on.
pub open spec fn suffix(s: Seq<Inst>, pos: int) -> Seq<Inst> {
    s.subrange(pos, s.len() as int)
}

proof fn lemma_collect_step(s: Seq<Inst>, pos: int)
    requires
        0 <= pos < s.len(),
    ensures
        label_names(suffix(s, pos)) == label_names(seq![s[pos]]) + label_names(suffix(s, pos + 1)),
        jump_targets(suffix(s, pos)) == jump_targets(seq![s[pos]]) + jump_targets(suffix(s, pos + 1)),
        io_ops(suffix(s, pos)) == io_ops(seq![s[pos]]) + io_ops(suffix(s, pos + 1)),
{
    assert(suffix(s, pos) =~= seq![s[pos]] + suffix(s, pos + 1));
    lemma_collect_concat(seq![s[pos]], suffix(s, pos + 1));
}

/// A run of additions or moves defines no label, holds no jump and no read
/// or write.
proof fn lemma_collect_skip_run(s: Seq<Inst>, pos: int, k: nat)
    requires
        0 <= pos,
        pos + k <= s.len(),
        forall|j: int| pos <= j < pos + k ==> #[trigger] s[j] is Add || s[j] is Move,
    ensures
        label_names(suffix(s, pos)) == label_names(suffix(s, pos + k)),
        jump_targets(suffix(s, pos)) == jump_targets(suffix(s, pos + k)),
        io_ops(suffix(s, pos)) == io_ops(suffix(s, pos + k)),
    decreases k,
{
    if k > 0 {
        lemma_collect_step(s, pos);
        lemma_collect_one(s[pos]);
        lemma_collect_skip_run(s, pos + 1, (k - 1) as nat);
        assert(label_names(seq![s[pos]]) + label_names(suffix(s, pos + 1)) =~= label_names(suffix(s, pos + 1)));
        assert(jump_targets(seq![s[pos]]) + jump_targets(suffix(s, pos + 1)) =~= jump_targets(suffix(s, pos + 1)));
        assert(io_ops(seq![s[pos]]) + io_ops(suffix(s, pos + 1)) =~= io_ops(suffix(s, pos + 1)));
    }
}

proof fn lemma_optimize_from_collect(s: Seq<Inst>, pos: int)
    requires
        0 <= pos <= s.len(),
    ensures
        label_names(optimize_from(s, pos)) == label_names(suffix(s, pos)),
        io_ops(optimize_from(s, pos)) == io_ops(suffix(s, pos)),
        forall|t: usize| #[trigger] jump_targets(optimize_from(s, pos)).contains(t)
            ==> jump_targets(suffix(s, pos)).contains(t),
    decreases insts_left(s, pos),
{
    if pos == s.len() {
        assert(suffix(s, pos) =~= Seq::<Inst>::empty());
    } else {
        let out = optimize_from(s, pos);
        match s[pos] {
            Inst::Add(_) => {
                let k = add_run_len(s, pos);
                lemma_add_run_extent(s, pos);
                lemma_collect_skip_run(s, pos, k);
                lemma_optimize_from_collect(s, pos + k);
                let v = crate::ir::optimizers::add_run_value(s, pos, k);
                let head = if v != 0 {
                    seq![Inst::Add(v)]
                } else {
                    Seq::<Inst>::empty()
                };
                lemma_collect_concat(head, optimize_from(s, pos + k));
                lemma_collect_one(Inst::Add(v));
                assert(label_names(Seq::<Inst>::empty()) =~= Seq::<usize>::empty());
                assert(jump_targets(Seq::<Inst>::empty()) =~= Seq::<usize>::empty());
                assert(io_ops(Seq::<Inst>::empty()) =~= Seq::<Inst>::empty());
                assert(label_names(out) =~= label_names(optimize_from(s, pos + k)));
                assert(io_ops(out) =~= io_ops(optimize_from(s, pos + k)));
                assert(jump_targets(out) =~= jump_targets(optimize_from(s, pos + k)));
            },
            Inst::Move(_) => {
                let k = move_run_len(s, pos);
                lemma_move_run_extent(s, pos);
                lemma_collect_skip_run(s, pos, k);
                lemma_optimize_from_collect(s, pos + k);
                let v = crate::ir::optimizers::move_run_value(s, pos, k);
                let head = if v != 0 {
                    seq![Inst::Move(v as i32)]
                } else {
                    Seq::<Inst>::empty()
                };
                lemma_collect_concat(head, optimize_from(s, pos + k));
                lemma_collect_one(Inst::Move(v as i32));
                assert(label_names(Seq::<Inst>::empty()) =~= Seq::<usize>::empty());
                assert(jump_targets(Seq::<Inst>::empty()) =~= Seq::<usize>::empty());
                assert(io_ops(Seq::<Inst>::empty()) =~= Seq::<Inst>::empty());
                assert(label_names(out) =~= label_names(optimize_from(s, pos + k)));
                assert(io_ops(out) =~= io_ops(optimize_from(s, pos + k)));
                assert(jump_targets(out) =~= jump_targets(optimize_from(s, pos + k)));
            },
            _ => {
                lemma_optimize_from_collect(s, pos + 1);
                lemma_collect_step(s, pos);
                lemma_collect_one(s[pos]);
                let rest = optimize_from(s, pos + 1);
                lemma_collect_concat(seq![s[pos]], rest);
                if out == rest {
                    assert(label_names(seq![s[pos]]) + label_names(suffix(s, pos + 1)) =~= label_names(suffix(s, pos + 1)));
                    assert(io_ops(seq![s[pos]]) + io_ops(suffix(s, pos + 1)) =~= io_ops(suffix(s, pos + 1)));
                    assert forall|t: usize| #[trigger] jump_targets(out).contains(t) implies jump_targets(
                        suffix(s, pos),
                    ).contains(t) by {
                        let js = jump_targets(suffix(s, pos + 1));
                        let k = choose|k: int| 0 <= k < js.len() && js[k] == t;
                        let h = jump_targets(seq![s[pos]]);
                        assert((h + js)[h.len() + k] == t);
                    }
                } else {
                    assert(out == seq![s[pos]] + rest);
                    assert forall|t: usize| #[trigger] jump_targets(out).contains(t) implies jump_targets(
                        suffix(s, pos),
                    ).contains(t) by {
                        let h = jump_targets(seq![s[pos]]);
                        let jr = jump_targets(rest);
                        let js = jump_targets(suffix(s, pos + 1));
                        let k = choose|k: int| 0 <= k < (h + jr).len() && (h + jr)[k] == t;
                        if k < h.len() {
                            assert((h + js)[k] == t);
                        } else {
                            assert(jr[k - h.len()] == t);
                            assert(jr.contains(t));
                            let m = choose|m: int| 0 <= m < js.len() && js[m] == t;
                            assert((h + js)[h.len() + m] == t);
                        }
                    }
                }
            },
        }
    }
}

/// Optimisation keeps every label, in order, and every read and write, in
/// order, and adds no jump target.
pub proof fn law_optimize_keeps_labels_and_io(s: Seq<Inst>)
    ensures
        label_names(optimize(s)) == label_names(s),
        io_ops(optimize(s)) == io_ops(s),
        forall|t: usize| #[trigger] jump_targets(optimize(s)).contains(t) ==> jump_targets(s).contains(t),
{
    lemma_optimize_from_collect(s, 0);
    assert(suffix(s, 0) =~= s);
}

/// Optimisation keeps the labels of a program well formed.
pub proof fn law_optimize_keeps_labels_well_formed(s: Seq<Inst>)
    requires
        labels_well_formed(s),
    ensures
        labels_well_formed(optimize(s)),
{
    law_optimize_keeps_labels_and_io(s);
    assert forall|t: usize| #[trigger] jump_targets(optimize(s)).contains(t) implies label_names(
        optimize(s),
    ).contains(t) by {
        assert(jump_targets(s).contains(t));
    }
}

} // verus!
