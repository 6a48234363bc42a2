use vstd::prelude::*;

use crate::ir::inst::{Inst, Label};
use crate::ir::labels::{
    defined_once, jump_targets_unique, label_names, lemma_jump_targets_contains,
    lemma_label_names_contains, lemma_label_once, law_optimize_keeps_labels_and_io,
};
use crate::ir::optimizers::{
    add_amount, add_run_len, add_run_value, lemma_add_run_extent, lemma_move_run_extent,
    move_amount, move_run_fits, move_run_len, move_run_value, moves_fit, optimize, optimize_from,
    starts_move_run, falls_through,
};

verus! {

/// Position `i` is not inside a run of additions or of moves: it is the
/// start, the end, or the first of a run.
pub open spec fn boundary(s: Seq<Inst>, i: int) -> bool {
    &&& 0 <= i <= s.len()
    &&& (i == 0 || i == s.len() || (!(s[i] is Add && s[i - 1] is Add) && !(s[i] is Move && s[
        i - 1
    ] is Move)))
}

/// The optimised form from a later boundary is a suffix of the optimised
/// form from an earlier one.
pub proof fn lemma_opt_suffix(s: Seq<Inst>, i0: int, i: int)
    requires
        boundary(s, i0),
        boundary(s, i),
        i0 <= i,
    ensures
        optimize_from(s, i).len() <= optimize_from(s, i0).len(),
        optimize_from(s, i) =~= optimize_from(s, i0).subrange(
            optimize_from(s, i0).len() - optimize_from(s, i).len(),
            optimize_from(s, i0).len() as int,
        ),
    decreases i - i0,
{
    let a = optimize_from(s, i0);
    if i0 == i {
        assert(a.subrange(0, a.len() as int) =~= a);
    } else {
        let n0 = match s[i0] {
            Inst::Add(_) => {
                lemma_add_run_extent(s, i0);
                let k = add_run_len(s, i0);
                if i < i0 + k {
                    assert(s[i] is Add);
                    assert(s[i - 1] is Add);
                }
                i0 + k
            },
            Inst::Move(_) => {
                lemma_move_run_extent(s, i0);
                let k = move_run_len(s, i0);
                if i < i0 + k {
                    assert(s[i] is Move);
                    assert(s[i - 1] is Move);
                }
                i0 + k
            },
            _ => i0 + 1,
        };
        assert(boundary(s, n0));
        lemma_opt_suffix(s, n0, i);
        let b = optimize_from(s, n0);
        let h = a.subrange(0, a.len() - b.len());
        assert(a =~= h + b) by {
            assert(a == a.subrange(0, a.len() - b.len()) + b);
        }
        assert(b.subrange(b.len() - optimize_from(s, i).len(), b.len() as int) =~= a.subrange(
            a.len() - optimize_from(s, i).len(),
            a.len() as int,
        ));
    }
}

/// The state of the tape machine that the instructions drive: the next
/// instruction, the cells (unbounded both ways), the data pointer, the input
/// not yet read and the output written so far.
#[verifier::ext_equal]
pub struct Machine {
    pub pc: int,
    pub tape: spec_fn(int) -> u8,
    pub pos: int,
    pub input: Seq<u8>,
    pub output: Seq<u8>,
}

/// The tape with cell `p` set to `v`.
pub open spec fn with_cell(t: spec_fn(int) -> u8, p: int, v: u8) -> spec_fn(int) -> u8 {
    |i: int| if i == p { v } else { t(i) }
}

/// A cell value plus `n`, modulo 256.
pub open spec fn add_mod_256(c: u8, n: int) -> u8 {
    ((c as int + n) % 256) as u8
}

/// Some instruction defines the label.
pub open spec fn has_label(s: Seq<Inst>, l: Label) -> bool {
    exists|k: int| 0 <= k < s.len() && s[k] == Inst::Label(l)
}

/// A place where the label is defined.
pub open spec fn label_index(s: Seq<Inst>, l: Label) -> int {
    choose|k: int| 0 <= k < s.len() && s[k] == Inst::Label(l)
}

/// The machine with its next instruction at `pc`.
pub open spec fn at(m: Machine, pc: int) -> Machine {
    Machine { pc, tape: m.tape, pos: m.pos, input: m.input, output: m.output }
}

/// A jump to the label, or no step where no instruction defines it.
pub open spec fn goto(s: Seq<Inst>, m: Machine, l: Label) -> Option<Machine> {
    if has_label(s, l) {
        Some(at(m, label_index(s, l)))
    } else {
        None
    }
}

/// One step of the machine; `None` where it stops: past the last
/// instruction, at a read with no input left, or at a jump to a label that
/// no instruction defines.
pub open spec fn step(s: Seq<Inst>, m: Machine) -> Option<Machine> {
    if m.pc < 0 || m.pc >= s.len() {
        None
    } else {
        match s[m.pc] {
            Inst::Add(n) => Some(
                Machine {
                    pc: m.pc + 1,
                    tape: with_cell(m.tape, m.pos, add_mod_256((m.tape)(m.pos), n as int)),
                    pos: m.pos,
                    input: m.input,
                    output: m.output,
                },
            ),
            Inst::Move(n) => Some(
                Machine {
                    pc: m.pc + 1,
                    tape: m.tape,
                    pos: m.pos + n,
                    input: m.input,
                    output: m.output,
                },
            ),
            Inst::Input => if m.input.len() == 0 {
                None
            } else {
                Some(
                    Machine {
                        pc: m.pc + 1,
                        tape: with_cell(m.tape, m.pos, m.input[0]),
                        pos: m.pos,
                        input: m.input.subrange(1, m.input.len() as int),
                        output: m.output,
                    },
                )
            },
            Inst::Output => Some(
                Machine {
                    pc: m.pc + 1,
                    tape: m.tape,
                    pos: m.pos,
                    input: m.input,
                    output: m.output.push((m.tape)(m.pos)),
                },
            ),
            Inst::Label(_) => Some(at(m, m.pc + 1)),
            Inst::Jump(l) => goto(s, m, l),
            Inst::JumpIfZero(l) => if (m.tape)(m.pos) == 0 {
                goto(s, m, l)
            } else {
                Some(at(m, m.pc + 1))
            },
        }
    }
}

/// At most `n` steps of the machine.
pub open spec fn run(s: Seq<Inst>, m: Machine, n: nat) -> Machine
    decreases n,
{
    if n == 0 {
        m
    } else {
        match step(s, m) {
            Some(m2) => run(s, m2, (n - 1) as nat),
            None => m,
        }
    }
}

/// The machine takes no further step.
pub open spec fn stopped(s: Seq<Inst>, m: Machine) -> bool {
    step(s, m) is None
}

/// Two stopped machines agree on everything observable: the tape, the data
/// pointer, the input left, the output, and whether the end was reached.
pub open spec fn same_result(a: Seq<Inst>, ma: Machine, b: Seq<Inst>, mb: Machine) -> bool {
    &&& ma.tape == mb.tape
    &&& ma.pos == mb.pos
    &&& ma.input == mb.input
    &&& ma.output == mb.output
    &&& (ma.pc >= a.len()) == (mb.pc >= b.len())
}

pub(crate) proof fn lemma_run_stopped(s: Seq<Inst>, m: Machine, n: nat)
    requires
        stopped(s, m),
    ensures
        run(s, m, n) == m,
    decreases n,
{
}

pub(crate) proof fn lemma_run_split(s: Seq<Inst>, m: Machine, a: nat, b: nat)
    ensures
        run(s, m, a + b) == run(s, run(s, m, a), b),
    decreases a,
{
    if a > 0 {
        match step(s, m) {
            Some(m2) => {
                lemma_run_split(s, m2, (a - 1) as nat, b);
                assert((a + b - 1) as nat == (a - 1) as nat + b);
            },
            None => {
                lemma_run_stopped(s, m, b);
            },
        }
    }
}

/// The exact sum of the first `k` additions from `pos` on.
pub open spec fn add_run_total(s: Seq<Inst>, pos: int, k: nat) -> int
    decreases k,
{
    if k == 0 {
        0
    } else {
        add_run_total(s, pos, (k - 1) as nat) + add_amount(s[pos + k - 1]) as int
    }
}

proof fn lemma_wrapping_sum(s: Seq<Inst>, pos: int, k: nat)
    ensures
        (add_run_value(s, pos, k) as int) % 256 == add_run_total(s, pos, k) % 256,
    decreases k,
{
    if k > 0 {
        lemma_wrapping_sum(s, pos, (k - 1) as nat);
        let v = add_run_value(s, pos, (k - 1) as nat) as int;
        let t = add_run_total(s, pos, (k - 1) as nat);
        let a = add_amount(s[pos + k - 1]) as int;
        let w = add_run_value(s, pos, k) as int;
        assert(w == v + a || w == v + a - 256 || w == v + a + 256);
        vstd::arithmetic::div_mod::lemma_add_mod_noop(v, a, 256);
        vstd::arithmetic::div_mod::lemma_add_mod_noop(t, a, 256);
        vstd::arithmetic::div_mod::lemma_mod_add_multiples_vanish(v + a, 256);
        vstd::arithmetic::div_mod::lemma_mod_sub_multiples_vanish(v + a, 256);
    }
}

proof fn lemma_add_mod_256_twice(c: u8, x: int, y: int)
    ensures
        add_mod_256(add_mod_256(c, x), y) == add_mod_256(c, x + y),
{
    vstd::arithmetic::div_mod::lemma_add_mod_noop_right(y, c as int + x, 256);
    assert((y + (c as int + x)) == c as int + (x + y));
}

proof fn lemma_add_mod_256_congruent(c: u8, x: int, y: int)
    requires
        x % 256 == y % 256,
    ensures
        add_mod_256(c, x) == add_mod_256(c, y),
{
    vstd::arithmetic::div_mod::lemma_add_mod_noop_right(c as int, x, 256);
    vstd::arithmetic::div_mod::lemma_add_mod_noop_right(c as int, y, 256);
}

/// The machine after the first `j` additions of a run.
pub open spec fn adds_done(s: Seq<Inst>, m: Machine, j: nat) -> Machine {
    Machine {
        pc: m.pc + j,
        tape: with_cell(m.tape, m.pos, add_mod_256((m.tape)(m.pos), add_run_total(s, m.pc, j))),
        pos: m.pos,
        input: m.input,
        output: m.output,
    }
}

/// The machine after the first `j` moves of a run.
pub open spec fn moves_done(s: Seq<Inst>, m: Machine, j: nat) -> Machine {
    Machine {
        pc: m.pc + j,
        tape: m.tape,
        pos: m.pos + move_run_value(s, m.pc, j),
        input: m.input,
        output: m.output,
    }
}

proof fn lemma_exec_adds(s: Seq<Inst>, m: Machine, j: nat)
    requires
        0 <= m.pc,
        m.pc + j <= s.len(),
        forall|i: int| m.pc <= i < m.pc + j ==> #[trigger] s[i] is Add,
    ensures
        run(s, m, j) == adds_done(s, m, j),
    decreases j,
{
    if j == 0 {
        assert(run(s, m, 0) =~= adds_done(s, m, 0));
    } else {
        let j1 = (j - 1) as nat;
        lemma_exec_adds(s, m, j1);
        lemma_run_split(s, m, j1, 1);
        let prev = adds_done(s, m, j1);
        assert(s[m.pc + j1] is Add);
        let a = add_amount(s[m.pc + j1]) as int;
        lemma_add_mod_256_twice((m.tape)(m.pos), add_run_total(s, m.pc, j1), a);
        assert(step(s, prev) is Some);
        assert(run(s, step(s, prev)->0, 0) == step(s, prev)->0);
        assert(run(s, prev, 1) == step(s, prev)->0);
        assert(step(s, prev)->0 =~= adds_done(s, m, j));
    }
}

proof fn lemma_exec_moves(s: Seq<Inst>, m: Machine, j: nat)
    requires
        0 <= m.pc,
        m.pc + j <= s.len(),
        forall|i: int| m.pc <= i < m.pc + j ==> #[trigger] s[i] is Move,
    ensures
        run(s, m, j) == moves_done(s, m, j),
    decreases j,
{
    if j == 0 {
        assert(run(s, m, 0) =~= moves_done(s, m, 0));
    } else {
        let j1 = (j - 1) as nat;
        lemma_exec_moves(s, m, j1);
        lemma_run_split(s, m, j1, 1);
        let prev = moves_done(s, m, j1);
        assert(s[m.pc + j1] is Move);
        assert(step(s, prev) is Some);
        assert(run(s, step(s, prev)->0, 0) == step(s, prev)->0);
        assert(run(s, prev, 1) == step(s, prev)->0);
        assert(step(s, prev)->0 =~= moves_done(s, m, j));
    }
}

/// Where the optimised form from position `i` starts inside the optimised
/// program.
pub open spec fn opt_pos(s: Seq<Inst>, i: int) -> int {
    optimize(s).len() - optimize_from(s, i).len()
}

proof fn lemma_opt_at(s: Seq<Inst>, i: int)
    requires
        boundary(s, i),
    ensures
        0 <= opt_pos(s, i) <= optimize(s).len(),
        forall|j: int|
            0 <= j < optimize_from(s, i).len() ==> optimize(s)[opt_pos(s, i) + j]
                == #[trigger] optimize_from(s, i)[j],
{
    lemma_opt_suffix(s, 0, i);
}

/// The optimised program, started where the original stands at a boundary,
/// ends as the original does.
pub open spec fn simulates(s: Seq<Inst>, m: Machine, n: nat) -> bool {
    exists|n2: nat|
        #![trigger run(optimize(s), at(m, opt_pos(s, m.pc)), n2)]
        stopped(optimize(s), run(optimize(s), at(m, opt_pos(s, m.pc)), n2)) && same_result(
            optimize(s),
            run(optimize(s), at(m, opt_pos(s, m.pc)), n2),
            s,
            run(s, m, n),
        )
}

pub(crate) proof fn lemma_run_one(s: Seq<Inst>, m: Machine, m1: Machine, n: nat)
    requires
        step(s, m) == Some(m1),
    ensures
        run(s, m, n + 1) == run(s, m1, n),
{
    assert((n + 1 - 1) as nat == n);
}

/// A machine stuck in the original program is stuck at the matching place
/// of the optimised one.
proof fn lemma_simulate_stuck(s: Seq<Inst>, m: Machine, n: nat)
    requires
        jump_targets_unique(s),
        boundary(s, m.pc),
        m.pc < s.len(),
        stopped(s, m),
    ensures
        simulates(s, m, n),
        stopped(optimize(s), at(m, opt_pos(s, m.pc))),
        same_result(optimize(s), at(m, opt_pos(s, m.pc)), s, m),
{
    let o = optimize(s);
    let pc = m.pc;
    let p = opt_pos(s, pc);
    let mo = at(m, p);
    lemma_run_stopped(s, m, n);
    lemma_opt_at(s, pc);
    law_optimize_keeps_labels_and_io(s);
    match s[pc] {
        Inst::Input => {
            assert(optimize_from(s, pc)[0] == Inst::Input);
        },
        Inst::Jump(l) => {
            assert(!has_label(s, l));
            assert(!falls_through(s, pc, l));
            assert(optimize_from(s, pc)[0] == s[pc]);
            lemma_label_names_contains(o, l.0);
            lemma_label_names_contains(s, l.0);
        },
        Inst::JumpIfZero(l) => {
            assert(!has_label(s, l));
            assert(!falls_through(s, pc, l));
            assert(optimize_from(s, pc)[0] == s[pc]);
            lemma_label_names_contains(o, l.0);
            lemma_label_names_contains(s, l.0);
        },
        _ => {},
    }
    assert(stopped(o, mo));
    lemma_run_stopped(o, mo, 0);
    assert(run(o, mo, 0) =~= mo);
    assert(same_result(o, run(o, mo, 0), s, run(s, m, n)));
}

/// Running the optimised program from the place that matches a boundary
/// ends as running the original does.
proof fn lemma_simulate(s: Seq<Inst>, m: Machine, n: nat)
    requires
        jump_targets_unique(s),
        moves_fit(s),
        boundary(s, m.pc),
        stopped(s, run(s, m, n)),
    ensures
        simulates(s, m, n),
    decreases n, 2nat,
{
    let o = optimize(s);
    let pc = m.pc;
    let p = opt_pos(s, pc);
    let mo = at(m, p);
    lemma_opt_at(s, pc);
    if pc == s.len() {
        lemma_run_stopped(s, m, n);
        assert(stopped(o, mo));
        assert(run(o, mo, 0) == mo);
        assert(same_result(o, run(o, mo, 0), s, run(s, m, n)));
    } else if stopped(s, m) {
        lemma_simulate_stuck(s, m, n);
    } else {
        if n == 0 {
            assert(run(s, m, 0) == m);
        }
        let n1 = (n - 1) as nat;
        match s[pc] {
            Inst::Add(_) => {
                lemma_simulate_adds(s, m, n);
            },
            Inst::Move(_) => {
                lemma_simulate_moves(s, m, n);
            },
            Inst::Jump(l) => {
                lemma_simulate_jump(s, m, n, l);
            },
            Inst::JumpIfZero(l) => {
                if (m.tape)(m.pos) == 0 {
                    lemma_simulate_jump(s, m, n, l);
                } else {
                    lemma_simulate_plain(s, m, n);
                }
            },
            _ => {
                lemma_simulate_plain(s, m, n);
            },
        }
    }
}

/// An instruction kept as it is, or a jump that is dropped and falls
/// through, moves both programs one place on.
proof fn lemma_simulate_plain(s: Seq<Inst>, m: Machine, n: nat)
    requires
        jump_targets_unique(s),
        moves_fit(s),
        boundary(s, m.pc),
        m.pc < s.len(),
        !stopped(s, m),
        step(s, m)->0.pc == m.pc + 1,
        !(s[m.pc] is Add),
        !(s[m.pc] is Move),
        stopped(s, run(s, m, n)),
    ensures
        simulates(s, m, n),
    decreases n, 0nat,
{
    let o = optimize(s);
    let pc = m.pc;
    let p = opt_pos(s, pc);
    let mo = at(m, p);
    lemma_opt_at(s, pc);
    if n == 0 {
        assert(run(s, m, 0) == m);
    }
    let n1 = (n - 1) as nat;
    let m1 = step(s, m)->0;
    lemma_run_one(s, m, m1, n1);
    assert(boundary(s, pc + 1));
    lemma_simulate(s, m1, n1);
    let n2 = choose|n2: nat|
        #![trigger run(o, at(m1, opt_pos(s, m1.pc)), n2)]
        stopped(o, run(o, at(m1, opt_pos(s, m1.pc)), n2)) && same_result(
            o,
            run(o, at(m1, opt_pos(s, m1.pc)), n2),
            s,
            run(s, m1, n1),
        );
    let dropped = match s[pc] {
        Inst::Jump(l) => falls_through(s, pc, l),
        Inst::JumpIfZero(l) => falls_through(s, pc, l),
        _ => false,
    };
    if dropped {
        assert(optimize_from(s, pc) == optimize_from(s, pc + 1));
        assert(at(m1, opt_pos(s, m1.pc)) =~= mo);
        assert(run(o, mo, n2) == run(o, at(m1, opt_pos(s, m1.pc)), n2));
    } else {
        assert(optimize_from(s, pc) == seq![s[pc]] + optimize_from(s, pc + 1));
        assert(optimize_from(s, pc)[0] == s[pc]);
        assert(o[p] == s[pc]);
        assert(step(o, mo)->0 =~= at(m1, p + 1));
        lemma_run_one(o, mo, at(m1, p + 1), n2);
        assert(run(o, mo, n2 + 1) == run(o, at(m1, opt_pos(s, m1.pc)), n2));
    }
}

/// A jump that is taken goes to the place of its label in both programs.
proof fn lemma_simulate_jump(s: Seq<Inst>, m: Machine, n: nat, l: Label)
    requires
        jump_targets_unique(s),
        moves_fit(s),
        boundary(s, m.pc),
        m.pc < s.len(),
        !stopped(s, m),
        s[m.pc] == Inst::Jump(l) || (s[m.pc] == Inst::JumpIfZero(l) && (m.tape)(m.pos) == 0),
        stopped(s, run(s, m, n)),
    ensures
        simulates(s, m, n),
    decreases n, 1nat,
{
    let o = optimize(s);
    let pc = m.pc;
    let p = opt_pos(s, pc);
    let mo = at(m, p);
    assert(has_label(s, l));
    let t = label_index(s, l);
    lemma_jump_targets_contains(s, pc, l.0);
    assert(defined_once(s, l.0));
    if falls_through(s, pc, l) {
        lemma_label_once(s, t, pc + 1, l.0);
        lemma_simulate_plain(s, m, n);
    } else {
        lemma_opt_at(s, pc);
        if n == 0 {
            assert(run(s, m, 0) == m);
        }
        let n1 = (n - 1) as nat;
        let m1 = at(m, t);
        assert(step(s, m) == Some(m1));
        lemma_run_one(s, m, m1, n1);
        assert(boundary(s, t));
        lemma_simulate(s, m1, n1);
        let q = opt_pos(s, t);
        let n2 = choose|n2: nat|
            #![trigger run(o, at(m1, opt_pos(s, m1.pc)), n2)]
            stopped(o, run(o, at(m1, opt_pos(s, m1.pc)), n2)) && same_result(
                o,
                run(o, at(m1, opt_pos(s, m1.pc)), n2),
                s,
                run(s, m1, n1),
            );
        // The label is defined in the optimised program at the matching place, and only there.
        lemma_opt_at(s, t);
        assert(optimize_from(s, t) == seq![s[t]] + optimize_from(s, t + 1));
        assert(optimize_from(s, t)[0] == s[t]);
        assert(o[q] == Inst::Label(l));
        law_optimize_keeps_labels_and_io(s);
        assert(has_label(o, l));
        let k = label_index(o, l);
        assert(defined_once(o, l.0));
        lemma_label_once(o, k, q, l.0);
        assert(optimize_from(s, pc) == seq![s[pc]] + optimize_from(s, pc + 1));
        assert(optimize_from(s, pc)[0] == s[pc]);
        assert(o[p] == s[pc]);
        assert(step(o, mo)->0 =~= at(m1, q));
        lemma_run_one(o, mo, at(m1, q), n2);
    }
}

/// A run of additions becomes one addition of their sum modulo 256, or
/// nothing where that sum is zero.
proof fn lemma_simulate_adds(s: Seq<Inst>, m: Machine, n: nat)
    requires
        jump_targets_unique(s),
        moves_fit(s),
        boundary(s, m.pc),
        m.pc < s.len(),
        s[m.pc] is Add,
        stopped(s, run(s, m, n)),
    ensures
        simulates(s, m, n),
    decreases n, 0nat,
{
    let o = optimize(s);
    let pc = m.pc;
    let p = opt_pos(s, pc);
    let mo = at(m, p);
    lemma_opt_at(s, pc);
    lemma_add_run_extent(s, pc);
    let k = add_run_len(s, pc);
    assert(k >= 1);
    if n < k {
        lemma_exec_adds(s, m, n);
        assert(s[pc + n] is Add);
        assert(!stopped(s, run(s, m, n)));
    }
    lemma_exec_adds(s, m, k);
    let mk = adds_done(s, m, k);
    lemma_run_split(s, m, k, (n - k) as nat);
    assert(run(s, m, n) == run(s, mk, (n - k) as nat));
    assert(boundary(s, pc + k));
    lemma_simulate(s, mk, (n - k) as nat);
    let n2 = choose|n2: nat|
        #![trigger run(o, at(mk, opt_pos(s, mk.pc)), n2)]
        stopped(o, run(o, at(mk, opt_pos(s, mk.pc)), n2)) && same_result(
            o,
            run(o, at(mk, opt_pos(s, mk.pc)), n2),
            s,
            run(s, mk, (n - k) as nat),
        );
    let v = add_run_value(s, pc, k);
    let total = add_run_total(s, pc, k);
    let c = (m.tape)(m.pos);
    lemma_wrapping_sum(s, pc, k);
    lemma_add_mod_256_congruent(c, v as int, total);
    if v != 0 {
        assert(optimize_from(s, pc) == seq![Inst::Add(v)] + optimize_from(s, pc + k));
        assert(optimize_from(s, pc)[0] == Inst::Add(v));
        assert(o[p] == Inst::Add(v));
        assert(step(o, mo)->0 =~= at(mk, p + 1));
        lemma_run_one(o, mo, at(mk, p + 1), n2);
    } else {
        assert(optimize_from(s, pc) =~= optimize_from(s, pc + k));
        lemma_add_mod_256_congruent(c, total, 0);
        assert(add_mod_256(c, 0) == c);
        assert(mk.tape =~= m.tape);
        assert(at(mk, opt_pos(s, mk.pc)) =~= mo);
    }
}

/// A run of moves becomes one move by their sum, or nothing where that sum
/// is zero.
proof fn lemma_simulate_moves(s: Seq<Inst>, m: Machine, n: nat)
    requires
        jump_targets_unique(s),
        moves_fit(s),
        boundary(s, m.pc),
        m.pc < s.len(),
        s[m.pc] is Move,
        stopped(s, run(s, m, n)),
    ensures
        simulates(s, m, n),
    decreases n, 0nat,
{
    let o = optimize(s);
    let pc = m.pc;
    let p = opt_pos(s, pc);
    let mo = at(m, p);
    lemma_opt_at(s, pc);
    lemma_move_run_extent(s, pc);
    let k = move_run_len(s, pc);
    assert(k >= 1);
    if n < k {
        lemma_exec_moves(s, m, n);
        assert(s[pc + n] is Move);
        assert(!stopped(s, run(s, m, n)));
    }
    lemma_exec_moves(s, m, k);
    let mk = moves_done(s, m, k);
    lemma_run_split(s, m, k, (n - k) as nat);
    assert(run(s, m, n) == run(s, mk, (n - k) as nat));
    assert(boundary(s, pc + k));
    lemma_simulate(s, mk, (n - k) as nat);
    let n2 = choose|n2: nat|
        #![trigger run(o, at(mk, opt_pos(s, mk.pc)), n2)]
        stopped(o, run(o, at(mk, opt_pos(s, mk.pc)), n2)) && same_result(
            o,
            run(o, at(mk, opt_pos(s, mk.pc)), n2),
            s,
            run(s, mk, (n - k) as nat),
        );
    let v = move_run_value(s, pc, k);
    assert(starts_move_run(s, pc));
    assert(move_run_fits(s, pc, k));
    assert(i32::MIN <= move_run_value(s, pc, k) <= i32::MAX);
    if v != 0 {
        assert(optimize_from(s, pc) == seq![Inst::Move(v as i32)] + optimize_from(s, pc + k));
        assert(optimize_from(s, pc)[0] == Inst::Move(v as i32));
        assert(o[p] == Inst::Move(v as i32));
        assert(step(o, mo)->0 =~= at(mk, p + 1));
        lemma_run_one(o, mo, at(mk, p + 1), n2);
    } else {
        assert(optimize_from(s, pc) =~= optimize_from(s, pc + k));
        assert(at(mk, opt_pos(s, mk.pc)) =~= mo);
    }
}

/// A run of the optimised program, started at the place that matches a
/// boundary of the original, that stops is matched by a run of the original
/// that stops the same way.
pub open spec fn simulated_by(s: Seq<Inst>, m: Machine, n2: nat) -> bool {
    stopped(optimize(s), run(optimize(s), at(m, opt_pos(s, m.pc)), n2)) ==> exists|n: nat|
        #![trigger run(s, m, n)]
        stopped(s, run(s, m, n)) && same_result(
            optimize(s),
            run(optimize(s), at(m, opt_pos(s, m.pc)), n2),
            s,
            run(s, m, n),
        )
}

proof fn lemma_back(s: Seq<Inst>, m: Machine, n2: nat)
    requires
        jump_targets_unique(s),
        moves_fit(s),
        boundary(s, m.pc),
    ensures
        simulated_by(s, m, n2),
    decreases n2, s.len() - m.pc, 2nat,
{
    let o = optimize(s);
    let pc = m.pc;
    let p = opt_pos(s, pc);
    let mo = at(m, p);
    lemma_opt_at(s, pc);
    if pc == s.len() {
        lemma_run_stopped(o, mo, n2);
        assert(run(s, m, 0) == m);
        assert(same_result(o, run(o, mo, n2), s, run(s, m, 0)));
    } else if stopped(s, m) {
        lemma_simulate_stuck(s, m, 0);
        lemma_run_stopped(o, mo, n2);
        assert(run(s, m, 0) == m);
    } else {
        match s[pc] {
            Inst::Add(_) => {
                lemma_back_adds(s, m, n2);
            },
            Inst::Move(_) => {
                lemma_back_moves(s, m, n2);
            },
            Inst::Jump(l) => {
                lemma_back_jump(s, m, n2, l);
            },
            Inst::JumpIfZero(l) => {
                if (m.tape)(m.pos) == 0 {
                    lemma_back_jump(s, m, n2, l);
                } else {
                    lemma_back_plain(s, m, n2);
                }
            },
            _ => {
                lemma_back_plain(s, m, n2);
            },
        }
    }
}

proof fn lemma_back_plain(s: Seq<Inst>, m: Machine, n2: nat)
    requires
        jump_targets_unique(s),
        moves_fit(s),
        boundary(s, m.pc),
        m.pc < s.len(),
        !stopped(s, m),
        step(s, m)->0.pc == m.pc + 1,
        !(s[m.pc] is Add),
        !(s[m.pc] is Move),
    ensures
        simulated_by(s, m, n2),
    decreases n2, s.len() - m.pc, 0nat,
{
    let o = optimize(s);
    let pc = m.pc;
    let p = opt_pos(s, pc);
    let mo = at(m, p);
    lemma_opt_at(s, pc);
    let m1 = step(s, m)->0;
    assert(boundary(s, pc + 1));
    let dropped = match s[pc] {
        Inst::Jump(l) => falls_through(s, pc, l),
        Inst::JumpIfZero(l) => falls_through(s, pc, l),
        _ => false,
    };
    if stopped(o, run(o, mo, n2)) {
        let mo1 = at(m1, opt_pos(s, pc + 1));
        let n2b: nat = if dropped { n2 } else { (n2 - 1) as nat };
        if dropped {
            assert(optimize_from(s, pc) == optimize_from(s, pc + 1));
            assert(mo1 =~= mo);
        } else {
            assert(optimize_from(s, pc) == seq![s[pc]] + optimize_from(s, pc + 1));
            assert(optimize_from(s, pc)[0] == s[pc]);
            assert(o[p] == s[pc]);
            assert(step(o, mo)->0 =~= at(m1, p + 1));
            if n2 == 0 {
                assert(run(o, mo, 0) == mo);
            }
            lemma_run_one(o, mo, mo1, n2b);
        }
        assert(run(o, mo, n2) == run(o, mo1, n2b));
        lemma_back(s, m1, n2b);
        let n = choose|n: nat|
            #![trigger run(s, m1, n)]
            stopped(s, run(s, m1, n)) && same_result(o, run(o, mo1, n2b), s, run(s, m1, n));
        lemma_run_one(s, m, m1, n);
    }
}

proof fn lemma_back_jump(s: Seq<Inst>, m: Machine, n2: nat, l: Label)
    requires
        jump_targets_unique(s),
        moves_fit(s),
        boundary(s, m.pc),
        m.pc < s.len(),
        !stopped(s, m),
        s[m.pc] == Inst::Jump(l) || (s[m.pc] == Inst::JumpIfZero(l) && (m.tape)(m.pos) == 0),
    ensures
        simulated_by(s, m, n2),
    decreases n2, s.len() - m.pc, 1nat,
{
    let o = optimize(s);
    let pc = m.pc;
    let p = opt_pos(s, pc);
    let mo = at(m, p);
    assert(has_label(s, l));
    let t = label_index(s, l);
    lemma_jump_targets_contains(s, pc, l.0);
    assert(defined_once(s, l.0));
    if falls_through(s, pc, l) {
        lemma_label_once(s, t, pc + 1, l.0);
        lemma_back_plain(s, m, n2);
    } else if stopped(o, run(o, mo, n2)) {
        lemma_opt_at(s, pc);
        let m1 = at(m, t);
        assert(step(s, m) == Some(m1));
        assert(boundary(s, t));
        let q = opt_pos(s, t);
        lemma_opt_at(s, t);
        assert(optimize_from(s, t) == seq![s[t]] + optimize_from(s, t + 1));
        assert(optimize_from(s, t)[0] == s[t]);
        assert(o[q] == Inst::Label(l));
        law_optimize_keeps_labels_and_io(s);
        assert(has_label(o, l));
        let k = label_index(o, l);
        assert(defined_once(o, l.0));
        lemma_label_once(o, k, q, l.0);
        assert(optimize_from(s, pc) == seq![s[pc]] + optimize_from(s, pc + 1));
        assert(optimize_from(s, pc)[0] == s[pc]);
        assert(o[p] == s[pc]);
        assert(step(o, mo)->0 =~= at(m1, q));
        if n2 == 0 {
            assert(run(o, mo, 0) == mo);
        }
        let n2b = (n2 - 1) as nat;
        lemma_run_one(o, mo, at(m1, q), n2b);
        lemma_back(s, m1, n2b);
        let n = choose|n: nat|
            #![trigger run(s, m1, n)]
            stopped(s, run(s, m1, n)) && same_result(o, run(o, at(m1, q), n2b), s, run(s, m1, n));
        lemma_run_one(s, m, m1, n);
    }
}

proof fn lemma_back_adds(s: Seq<Inst>, m: Machine, n2: nat)
    requires
        jump_targets_unique(s),
        moves_fit(s),
        boundary(s, m.pc),
        m.pc < s.len(),
        s[m.pc] is Add,
    ensures
        simulated_by(s, m, n2),
    decreases n2, s.len() - m.pc, 0nat,
{
    let o = optimize(s);
    let pc = m.pc;
    let p = opt_pos(s, pc);
    let mo = at(m, p);
    lemma_opt_at(s, pc);
    lemma_add_run_extent(s, pc);
    let k = add_run_len(s, pc);
    assert(k >= 1);
    lemma_exec_adds(s, m, k);
    let mk = adds_done(s, m, k);
    assert(boundary(s, pc + k));
    let mok = at(mk, opt_pos(s, pc + k));
    let v = add_run_value(s, pc, k);
    let total = add_run_total(s, pc, k);
    let c = (m.tape)(m.pos);
    lemma_wrapping_sum(s, pc, k);
    lemma_add_mod_256_congruent(c, v as int, total);
    if stopped(o, run(o, mo, n2)) {
        let n2b: nat = if v != 0 { (n2 - 1) as nat } else { n2 };
        if v != 0 {
            assert(optimize_from(s, pc) == seq![Inst::Add(v)] + optimize_from(s, pc + k));
            assert(optimize_from(s, pc)[0] == Inst::Add(v));
            assert(o[p] == Inst::Add(v));
            assert(step(o, mo)->0 =~= at(mk, p + 1));
            if n2 == 0 {
                assert(run(o, mo, 0) == mo);
            }
            lemma_run_one(o, mo, mok, n2b);
        } else {
            assert(optimize_from(s, pc) =~= optimize_from(s, pc + k));
            lemma_add_mod_256_congruent(c, total, 0);
            assert(mk.tape =~= m.tape);
            assert(mok =~= mo);
        }
        assert(run(o, mo, n2) == run(o, mok, n2b));
        lemma_back(s, mk, n2b);
        let n = choose|n: nat|
            #![trigger run(s, mk, n)]
            stopped(s, run(s, mk, n)) && same_result(o, run(o, mok, n2b), s, run(s, mk, n));
        lemma_run_split(s, m, k, n);
    }
}

proof fn lemma_back_moves(s: Seq<Inst>, m: Machine, n2: nat)
    requires
        jump_targets_unique(s),
        moves_fit(s),
        boundary(s, m.pc),
        m.pc < s.len(),
        s[m.pc] is Move,
    ensures
        simulated_by(s, m, n2),
    decreases n2, s.len() - m.pc, 0nat,
{
    let o = optimize(s);
    let pc = m.pc;
    let p = opt_pos(s, pc);
    let mo = at(m, p);
    lemma_opt_at(s, pc);
    lemma_move_run_extent(s, pc);
    let k = move_run_len(s, pc);
    assert(k >= 1);
    lemma_exec_moves(s, m, k);
    let mk = moves_done(s, m, k);
    assert(boundary(s, pc + k));
    let mok = at(mk, opt_pos(s, pc + k));
    let v = move_run_value(s, pc, k);
    assert(starts_move_run(s, pc));
    assert(move_run_fits(s, pc, k));
    assert(i32::MIN <= move_run_value(s, pc, k) <= i32::MAX);
    if stopped(o, run(o, mo, n2)) {
        let n2b: nat = if v != 0 { (n2 - 1) as nat } else { n2 };
        if v != 0 {
            assert(optimize_from(s, pc) == seq![Inst::Move(v as i32)] + optimize_from(s, pc + k));
            assert(optimize_from(s, pc)[0] == Inst::Move(v as i32));
            assert(o[p] == Inst::Move(v as i32));
            assert(step(o, mo)->0 =~= at(mk, p + 1));
            if n2 == 0 {
                assert(run(o, mo, 0) == mo);
            }
            lemma_run_one(o, mo, mok, n2b);
        } else {
            assert(optimize_from(s, pc) =~= optimize_from(s, pc + k));
            assert(mok =~= mo);
        }
        assert(run(o, mo, n2) == run(o, mok, n2b));
        lemma_back(s, mk, n2b);
        let n = choose|n: nat|
            #![trigger run(s, mk, n)]
            stopped(s, run(s, mk, n)) && same_result(o, run(o, mok, n2b), s, run(s, mk, n));
        lemma_run_split(s, m, k, n);
    }
}

/// The optimiser keeps what a program does. Where no label that a jump goes
/// to is defined twice (as in every lowered program, where no label is) and
/// the runs of moves fit an `i32`, a run
/// of the original program that stops is matched by a run of the optimised
/// program from the same machine state that stops with the same tape, data
/// pointer, remaining input and output, and at the end exactly when the
/// original does.
pub proof fn law_optimize_preserves_behaviour(s: Seq<Inst>, m: Machine, n: nat)
    requires
        jump_targets_unique(s),
        moves_fit(s),
        m.pc == 0,
        stopped(s, run(s, m, n)),
    ensures
        exists|n2: nat|
            #![trigger run(optimize(s), m, n2)]
            stopped(optimize(s), run(optimize(s), m, n2)) && same_result(
                optimize(s),
                run(optimize(s), m, n2),
                s,
                run(s, m, n),
            ),
{
    lemma_simulate(s, m, n);
    assert(opt_pos(s, 0) == 0);
    assert(at(m, opt_pos(s, m.pc)) =~= m);
}

/// The converse: where the optimised program stops, the original stops too,
/// with the same tape, data pointer, remaining input and output, and at the
/// end exactly when the optimised program does. Together with the law above,
/// the two programs stop on the same inputs with the same results.
pub proof fn law_optimize_reflects_behaviour(s: Seq<Inst>, m: Machine, n2: nat)
    requires
        jump_targets_unique(s),
        moves_fit(s),
        m.pc == 0,
        stopped(optimize(s), run(optimize(s), m, n2)),
    ensures
        exists|n: nat|
            #![trigger run(s, m, n)]
            stopped(s, run(s, m, n)) && same_result(optimize(s), run(optimize(s), m, n2), s, run(s, m, n)),
{
    assert(opt_pos(s, 0) == 0);
    assert(at(m, opt_pos(s, m.pc)) =~= m);
    lemma_back(s, m, n2);
}

} // verus!
