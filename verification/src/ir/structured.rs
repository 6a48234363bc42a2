use vstd::prelude::*;

use crate::frontend::ast::{seq_loops, NodeModel, NodeShape, AST};
use crate::ir::inst::{Inst, Label};
use crate::ir::labels::{
    label_names, labels_well_formed, law_lowered_labels_well_formed, lemma_label_unique,
    lemma_unique_labels_unique_targets,
};
use crate::ir::ir::{ir_result, ir_within_limits};
use crate::ir::lowering::{lower_node, lower_nodes, lower_program};
use crate::ir::optimizers::optimize;
use crate::ir::semantics::{
    add_mod_256, at, goto, has_label, label_index, law_optimize_preserves_behaviour,
    law_optimize_reflects_behaviour, lemma_run_one, lemma_run_split, lemma_run_stopped, run,
    same_result, step, stopped, with_cell, Machine,
};

verus! {

/// What a Brainfuck program works on: the cells, the data pointer, the input
/// not yet read and the output written so far.
#[verifier::ext_equal]
pub struct Store {
    pub tape: spec_fn(int) -> u8,
    pub pos: int,
    pub input: Seq<u8>,
    pub output: Seq<u8>,
}

/// The machine that runs instructions from `pc` on the store.
pub open spec fn machine(st: Store, pc: int) -> Machine {
    Machine { pc, tape: st.tape, pos: st.pos, input: st.input, output: st.output }
}

/// How running a syntax tree ends: having run to its end, stuck at a read
/// with no input left (or at an invalid node), or out of the loop rounds
/// allowed.
pub enum Outcome {
    Done(Store),
    Stuck(Store),
    OutOfFuel,
}

/// One node run on the store. A loop completes only where its body runs at
/// most `fuel` times; each loop inside it gets the same bound each time it
/// starts.
pub open spec fn exec_node(n: NodeModel, st: Store, fuel: nat) -> Outcome
    decreases fuel, n, 0nat,
{
    match n.shape {
        NodeShape::Add(k) => Outcome::Done(
            Store {
                tape: with_cell(st.tape, st.pos, add_mod_256((st.tape)(st.pos), k as int)),
                pos: st.pos,
                input: st.input,
                output: st.output,
            },
        ),
        NodeShape::Move(k) => Outcome::Done(
            Store { tape: st.tape, pos: st.pos + k, input: st.input, output: st.output },
        ),
        NodeShape::Input => if st.input.len() == 0 {
            Outcome::Stuck(st)
        } else {
            Outcome::Done(
                Store {
                    tape: with_cell(st.tape, st.pos, st.input[0]),
                    pos: st.pos,
                    input: st.input.subrange(1, st.input.len() as int),
                    output: st.output,
                },
            )
        },
        NodeShape::Output => Outcome::Done(
            Store {
                tape: st.tape,
                pos: st.pos,
                input: st.input,
                output: st.output.push((st.tape)(st.pos)),
            },
        ),
        NodeShape::Loop(body) => exec_loop(body, st, fuel),
        NodeShape::Invalid(_) => Outcome::Stuck(st),
    }
}

/// The nodes run in order.
pub open spec fn exec_nodes(ns: Seq<NodeModel>, st: Store, fuel: nat) -> Outcome
    decreases fuel, ns, 0nat,
{
    if ns.len() == 0 {
        Outcome::Done(st)
    } else {
        match exec_node(ns[0], st, fuel) {
            Outcome::Done(st1) => exec_nodes(ns.subrange(1, ns.len() as int), st1, fuel),
            other => other,
        }
    }
}

/// `[body]`: while the current cell is not zero, run the body.
pub open spec fn exec_loop(body: Seq<NodeModel>, st: Store, fuel: nat) -> Outcome
    decreases fuel, body, 1nat,
{
    if (st.tape)(st.pos) == 0 {
        Outcome::Done(st)
    } else {
        match exec_nodes(body, st, fuel) {
            Outcome::Done(st1) => if fuel == 0 {
                Outcome::OutOfFuel
            } else {
                exec_loop(body, st1, (fuel - 1) as nat)
            },
            other => other,
        }
    }
}

/// The store of a machine, its next instruction left aside.
pub open spec fn store_of(m: Machine) -> Store {
    Store { tape: m.tape, pos: m.pos, input: m.input, output: m.output }
}

/// How a machine `m` of the instructions `p` matches an outcome of the
/// syntax tree whose instructions end before `end`: a completed run stands
/// at `end` with the same store; a stuck one has stopped inside `p` with the
/// same store.
spec fn ends_as(p: Seq<Inst>, r: Outcome, m: Machine, end: int) -> bool {
    match r {
        Outcome::Done(st2) => m == machine(st2, end),
        Outcome::Stuck(st2) => stopped(p, m) && store_of(m) == st2 && 0 <= m.pc < p.len(),
        Outcome::OutOfFuel => true,
    }
}

/// `out` stands in `p` from position `o` on.
spec fn placed(p: Seq<Inst>, out: Seq<Inst>, o: int) -> bool {
    &&& 0 <= o
    &&& o + out.len() <= p.len()
    &&& forall|i: int| 0 <= i < out.len() ==> p[o + i] == #[trigger] out[i]
}

/// The instructions of a loop whose body lowered to `b`, with labels
/// `next` and `next + 1`.
spec fn loop_insts(next: nat, b: Seq<Inst>) -> Seq<Inst> {
    seq![Inst::Label(Label(next as usize)), Inst::JumpIfZero(Label((next + 1) as usize))] + b
        + seq![Inst::Jump(Label(next as usize)), Inst::Label(Label((next + 1) as usize))]
}

proof fn lemma_placed_split(p: Seq<Inst>, a: Seq<Inst>, b: Seq<Inst>, o: int)
    requires
        placed(p, a + b, o),
    ensures
        placed(p, a, o),
        placed(p, b, o + a.len()),
{
    assert forall|i: int| 0 <= i < a.len() implies p[o + i] == #[trigger] a[i] by {
        assert((a + b)[i] == a[i]);
    }
    assert forall|i: int| 0 <= i < b.len() implies p[o + a.len() + i] == #[trigger] b[i] by {
        assert((a + b)[a.len() + i] == b[i]);
        assert(o + a.len() + i == o + (a.len() + i));
    }
}

/// A jump to a label defined once lands on its definition.
proof fn lemma_goto_label(p: Seq<Inst>, m: Machine, o: int, l: Label)
    requires
        label_names(p).no_duplicates(),
        0 <= o < p.len(),
        p[o] == Inst::Label(l),
    ensures
        goto(p, m, l) == Some(at(m, o)),
{
    assert(has_label(p, l));
    let k = label_index(p, l);
    lemma_label_unique(p, k, o);
}

proof fn lemma_lowered_node(
    p: Seq<Inst>,
    n: NodeModel,
    next: nat,
    out: Seq<Inst>,
    after: nat,
    o: int,
    st: Store,
    fuel: nat,
) -> (k: nat)
    requires
        label_names(p).no_duplicates(),
        lower_node(n, next) == Some((out, after)),
        placed(p, out, o),
    ensures
        ends_as(p, exec_node(n, st, fuel), run(p, machine(st, o), k), o + out.len()),
        exec_node(n, st, fuel) is OutOfFuel ==> k >= fuel && !stopped(p, run(p, machine(st, o), k)),
    decreases fuel, n, 0nat,
{
    let m = machine(st, o);
    match n.shape {
        NodeShape::Loop(body) => {
            let (b, a2) = lower_nodes(body, next + 2)->0;
            assert(out == loop_insts(next, b));
            let k = lemma_lowered_loop(p, body, next, b, a2, o, st, fuel);
            assert(out.len() == b.len() + 4);
            k
        },
        NodeShape::Input => {
            assert(p[o] == out[0]);
            if st.input.len() == 0 {
                assert(run(p, m, 0) == m);
                0
            } else {
                let m1 = step(p, m)->0;
                lemma_run_one(p, m, m1, 0);
                assert(m1 =~= machine(exec_node(n, st, fuel)->Done_0, o + 1));
                1
            }
        },
        _ => {
            assert(p[o] == out[0]);
            let m1 = step(p, m)->0;
            lemma_run_one(p, m, m1, 0);
            assert(m1 =~= machine(exec_node(n, st, fuel)->Done_0, o + 1));
            1
        },
    }
}

proof fn lemma_lowered_nodes(
    p: Seq<Inst>,
    ns: Seq<NodeModel>,
    next: nat,
    out: Seq<Inst>,
    after: nat,
    o: int,
    st: Store,
    fuel: nat,
) -> (k: nat)
    requires
        label_names(p).no_duplicates(),
        lower_nodes(ns, next) == Some((out, after)),
        placed(p, out, o),
    ensures
        ends_as(p, exec_nodes(ns, st, fuel), run(p, machine(st, o), k), o + out.len()),
        exec_nodes(ns, st, fuel) is OutOfFuel ==> k >= fuel && !stopped(
            p,
            run(p, machine(st, o), k),
        ),
    decreases fuel, ns, 0nat,
{
    if ns.len() == 0 {
        assert(run(p, machine(st, o), 0) == machine(st, o));
        0
    } else {
        let rest = ns.subrange(1, ns.len() as int);
        let (a, mid) = lower_node(ns[0], next)->0;
        let (r, a2) = lower_nodes(rest, mid)->0;
        assert(out == a + r);
        lemma_placed_split(p, a, r, o);
        let k1 = lemma_lowered_node(p, ns[0], next, a, mid, o, st, fuel);
        match exec_node(ns[0], st, fuel) {
            Outcome::Done(st1) => {
                let k2 = lemma_lowered_nodes(p, rest, mid, r, a2, o + a.len(), st1, fuel);
                lemma_run_split(p, machine(st, o), k1, k2);
                k1 + k2
            },
            _ => k1,
        }
    }
}

proof fn lemma_lowered_loop(
    p: Seq<Inst>,
    body: Seq<NodeModel>,
    next: nat,
    b: Seq<Inst>,
    after: nat,
    o: int,
    st: Store,
    fuel: nat,
) -> (k: nat)
    requires
        label_names(p).no_duplicates(),
        lower_nodes(body, next + 2) == Some((b, after)),
        placed(p, loop_insts(next, b), o),
    ensures
        ends_as(p, exec_loop(body, st, fuel), run(p, machine(st, o), k), o + b.len() + 4),
        exec_loop(body, st, fuel) is OutOfFuel ==> k >= fuel && !stopped(
            p,
            run(p, machine(st, o), k),
        ),
    decreases fuel, body, 1nat,
{
    let out = loop_insts(next, b);
    let len = b.len() as int;
    assert(p[o] == out[0]);
    assert(p[o + 1] == out[1]);
    assert(p[o + 2 + len] == out[2 + len]);
    assert(p[o + 3 + len] == out[3 + len]);
    assert(out[0] == Inst::Label(Label(next as usize)));
    assert(out[1] == Inst::JumpIfZero(Label((next + 1) as usize)));
    assert(out[2 + len] == Inst::Jump(Label(next as usize)));
    assert(out[3 + len] == Inst::Label(Label((next + 1) as usize)));
    assert(placed(p, b, o + 2)) by {
        assert forall|i: int| 0 <= i < b.len() implies p[o + 2 + i] == #[trigger] b[i] by {
            assert(out[2 + i] == b[i]);
            assert(p[o + (2 + i)] == out[2 + i]);
        }
    }
    let m0 = machine(st, o);
    let m1 = machine(st, o + 1);
    assert(step(p, m0) == Some(m1));
    lemma_run_one(p, m0, m1, 0);
    if (st.tape)(st.pos) == 0 {
        lemma_goto_label(p, m1, o + 3 + len, Label((next + 1) as usize));
        let m2 = machine(st, o + 3 + len);
        let m3 = machine(st, o + 4 + len);
        assert(step(p, m1) == Some(m2));
        assert(step(p, m2) == Some(m3));
        lemma_run_one(p, m2, m3, 0);
        lemma_run_one(p, m1, m2, 1);
        lemma_run_one(p, m0, m1, 2);
        3
    } else {
        let m2 = machine(st, o + 2);
        assert(step(p, m1) == Some(m2));
        lemma_run_one(p, m1, m2, 0);
        lemma_run_one(p, m0, m1, 1);
        assert(run(p, m0, 2) == m2);
        let k1 = lemma_lowered_nodes(p, body, next + 2, b, after, o + 2, st, fuel);
        lemma_run_split(p, m0, 2, k1);
        match exec_nodes(body, st, fuel) {
            Outcome::Done(st1) => {
                let e = machine(st1, o + 2 + len);
                let back = machine(st1, o);
                lemma_goto_label(p, e, o, Label(next as usize));
                assert(step(p, e) == Some(back));
                lemma_run_one(p, e, back, 0);
                lemma_run_split(p, m0, 2 + k1, 1);
                if fuel == 0 {
                    assert(step(p, back) is Some);
                    3 + k1
                } else {
                    let k2 = lemma_lowered_loop(p, body, next, b, after, o, st1, (fuel - 1) as nat);
                    lemma_run_split(p, m0, 3 + k1, k2);
                    3 + k1 + k2
                }
            },
            _ => 2 + k1,
        }
    }
}

/// The instructions, run from the first one on the store `st`, end as the
/// syntax tree's outcome `r` says: where the tree completes, they stop past
/// their end with the store it ends with; where it gets stuck, they stop
/// inside with the store it ends with.
pub open spec fn agrees(insts: Seq<Inst>, st: Store, r: Outcome) -> bool {
    match r {
        Outcome::Done(st2) => exists|n: nat|
            #![trigger run(insts, machine(st, 0), n)]
            stopped(insts, run(insts, machine(st, 0), n)) && store_of(run(insts, machine(st, 0), n))
                == st2 && run(insts, machine(st, 0), n).pc >= insts.len(),
        Outcome::Stuck(st2) => exists|n: nat|
            #![trigger run(insts, machine(st, 0), n)]
            stopped(insts, run(insts, machine(st, 0), n)) && store_of(run(insts, machine(st, 0), n))
                == st2 && run(insts, machine(st, 0), n).pc < insts.len(),
        Outcome::OutOfFuel => true,
    }
}

/// Lowering keeps what a program means. Where the program's labels fit in a
/// `usize`, its lowered instructions, run on a store, end as the syntax tree
/// does (see `agrees`); and where the instructions stop within `fuel` steps,
/// the tree run with `fuel` loop rounds does not run out of them, so the two
/// always agree.
pub proof fn law_lowering_preserves_behaviour(ast: Seq<NodeModel>, st: Store, fuel: nat)
    requires
        2 * seq_loops(ast) <= usize::MAX,
    ensures
        lower_program(ast) matches Some(insts) ==> agrees(insts, st, exec_nodes(ast, st, fuel)),
        lower_program(ast) matches Some(insts) ==> (stopped(insts, run(insts, machine(st, 0), fuel))
            ==> !(exec_nodes(ast, st, fuel) is OutOfFuel)),
{
    law_lowered_labels_well_formed(ast);
    if let Some((insts, after)) = lower_nodes(ast, 0) {
        assert(labels_well_formed(insts));
        assert(placed(insts, insts, 0));
        let m = machine(st, 0);
        let k = lemma_lowered_nodes(insts, ast, 0, insts, after, 0, st, fuel);
        if let Outcome::Done(st2) = exec_nodes(ast, st, fuel) {
            assert(store_of(run(insts, m, k)) =~= st2);
        }
        assert(agrees(insts, st, exec_nodes(ast, st, fuel)));
        if stopped(insts, run(insts, m, fuel)) && exec_nodes(ast, st, fuel) is OutOfFuel {
            lemma_run_split(insts, m, fuel, (k - fuel) as nat);
            lemma_run_stopped(insts, run(insts, m, fuel), (k - fuel) as nat);
        }
    }
}

/// What `IR::new` gives keeps what the program means, at either
/// optimisation level: run on a store, the instructions end as the syntax
/// tree does (see `agrees`); and where the instructions stop, the tree does
/// not run out of loop rounds for some bound on them.
pub proof fn law_ir_preserves_behaviour(ast: AST, opt_level: i32, st: Store, fuel: nat)
    requires
        ir_within_limits(ast@, opt_level),
    ensures
        ir_result(ast, opt_level) matches Ok(insts) ==> agrees(insts, st, exec_nodes(ast@, st, fuel)),
        ir_result(ast, opt_level) matches Ok(insts) ==> (stopped(insts, run(insts, machine(st, 0), fuel))
            ==> exists|f: nat|
            #![trigger exec_nodes(ast@, st, f)]
            !(exec_nodes(ast@, st, f) is OutOfFuel)),
{
    let m = machine(st, 0);
    law_lowering_preserves_behaviour(ast@, st, fuel);
    law_lowered_labels_well_formed(ast@);
    if let Some(low) = lower_program(ast@) {
        assert(labels_well_formed(low));
        lemma_unique_labels_unique_targets(low);
        if opt_level == 0 {
            if stopped(low, run(low, m, fuel)) {
                assert(!(exec_nodes(ast@, st, fuel) is OutOfFuel));
            }
        } else if opt_level == 1 {
            let opt = optimize(low);
            match exec_nodes(ast@, st, fuel) {
                Outcome::Done(st2) => {
                    let k = choose|k: nat|
                        #![trigger run(low, m, k)]
                        stopped(low, run(low, m, k)) && store_of(run(low, m, k)) == st2 && run(low, m, k).pc
                            >= low.len();
                    law_optimize_preserves_behaviour(low, m, k);
                    let n2 = choose|n2: nat|
                        #![trigger run(opt, m, n2)]
                        stopped(opt, run(opt, m, n2)) && same_result(opt, run(opt, m, n2), low, run(low, m, k));
                    assert(store_of(run(opt, m, n2)) =~= st2);
                },
                Outcome::Stuck(st2) => {
                    let k = choose|k: nat|
                        #![trigger run(low, m, k)]
                        stopped(low, run(low, m, k)) && store_of(run(low, m, k)) == st2 && run(low, m, k).pc
                            < low.len();
                    law_optimize_preserves_behaviour(low, m, k);
                    let n2 = choose|n2: nat|
                        #![trigger run(opt, m, n2)]
                        stopped(opt, run(opt, m, n2)) && same_result(opt, run(opt, m, n2), low, run(low, m, k));
                    assert(store_of(run(opt, m, n2)) =~= st2);
                },
                Outcome::OutOfFuel => {},
            }
            assert(agrees(opt, st, exec_nodes(ast@, st, fuel)));
            if stopped(opt, run(opt, m, fuel)) {
                law_optimize_reflects_behaviour(low, m, fuel);
                let n = choose|n: nat|
                    #![trigger run(low, m, n)]
                    stopped(low, run(low, m, n)) && same_result(opt, run(opt, m, fuel), low, run(low, m, n));
                law_lowering_preserves_behaviour(ast@, st, n);
                assert(!(exec_nodes(ast@, st, n) is OutOfFuel));
            }
        }
    }
}

} // verus!
