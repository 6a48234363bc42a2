use vstd::prelude::*;

use crate::ir::inst::{Inst, Label};

verus! {

/// Instructions left from position `pos` on.
pub open spec fn insts_left(s: Seq<Inst>, pos: int) -> int {
    if 0 <= pos < s.len() {
        s.len() - pos
    } else {
        0
    }
}

/// The number of consecutive `Add`s from `pos` on.
pub open spec fn add_run_len(s: Seq<Inst>, pos: int) -> nat
    decreases insts_left(s, pos),
{
    if 0 <= pos < s.len() && s[pos] is Add {
        1 + add_run_len(s, pos + 1)
    } else {
        0
    }
}

/// The number of consecutive `Move`s from `pos` on.
pub open spec fn move_run_len(s: Seq<Inst>, pos: int) -> nat
    decreases insts_left(s, pos),
{
    if 0 <= pos < s.len() && s[pos] is Move {
        1 + move_run_len(s, pos + 1)
    } else {
        0
    }
}

pub open spec fn add_amount(i: Inst) -> i8 {
    match i {
        Inst::Add(n) => n,
        _ => 0,
    }
}

pub open spec fn move_amount(i: Inst) -> int {
    match i {
        Inst::Move(n) => n as int,
        _ => 0,
    }
}

/// The first `k` additions from `pos` on, summed left to right modulo 256.
pub open spec fn add_run_value(s: Seq<Inst>, pos: int, k: nat) -> i8
    decreases k,
{
    if k == 0 {
        0
    } else {
        vstd::wrapping::i8_specs::wrapping_add(
            add_run_value(s, pos, (k - 1) as nat),
            add_amount(s[pos + k - 1]),
        )
    }
}

/// The first `k` moves from `pos` on, summed exactly.
pub open spec fn move_run_value(s: Seq<Inst>, pos: int, k: nat) -> int
    decreases k,
{
    if k == 0 {
        0
    } else {
        move_run_value(s, pos, (k - 1) as nat) + move_amount(s[pos + k - 1])
    }
}

/// Every partial sum of the `k` moves from `pos` on fits an `i32`.
pub open spec fn move_run_fits(s: Seq<Inst>, pos: int, k: nat) -> bool {
    forall|j: nat| 1 <= j <= k ==> i32::MIN <= #[trigger] move_run_value(s, pos, j) <= i32::MAX
}

/// Position `i` starts a maximal run of moves.
pub open spec fn starts_move_run(s: Seq<Inst>, i: int) -> bool {
    0 <= i < s.len() && s[i] is Move && (i == 0 || !(s[i - 1] is Move))
}

/// Every maximal run of moves can be summed in an `i32` without overflow.
pub open spec fn moves_fit(s: Seq<Inst>) -> bool {
    forall|i: int| #[trigger] starts_move_run(s, i) ==> move_run_fits(s, i, move_run_len(s, i))
}

/// The sum of the sizes of the moves in `s`.
pub open spec fn move_weight(s: Seq<Inst>) -> nat
    decreases s.len(),
{
    if s.len() == 0 {
        0
    } else {
        (if move_amount(s[0]) < 0 {
            -move_amount(s[0])
        } else {
            move_amount(s[0])
        }) as nat + move_weight(s.drop_first())
    }
}

pub proof fn lemma_move_weight_concat(a: Seq<Inst>, b: Seq<Inst>)
    ensures
        move_weight(a + b) == move_weight(a) + move_weight(b),
    decreases a.len(),
{
    if a.len() == 0 {
        assert(a + b =~= b);
    } else {
        lemma_move_weight_concat(a.drop_first(), b);
        assert((a + b).drop_first() =~= a.drop_first() + b);
    }
}

proof fn lemma_move_run_weight(s: Seq<Inst>, i: int, j: nat)
    requires
        0 <= i,
        i + j <= s.len(),
    ensures
        -move_weight(s.subrange(i, s.len() as int)) + move_weight(s.subrange(i + j, s.len() as int))
            <= move_run_value(s, i, j) <= move_weight(s.subrange(i, s.len() as int))
            - move_weight(s.subrange(i + j, s.len() as int)),
    decreases j,
{
    if j > 0 {
        let j1 = (j - 1) as nat;
        lemma_move_run_weight(s, i, j1);
        let t = s.subrange(i + j1, s.len() as int);
        assert(t.drop_first() =~= s.subrange(i + j, s.len() as int));
        assert(t[0] == s[i + j - 1]);
    }
}

/// Where the moves of a program sum to at most `i32::MAX` in size, every
/// run of moves can be summed in an `i32`.
pub proof fn lemma_light_moves_fit(s: Seq<Inst>)
    requires
        move_weight(s) <= i32::MAX,
    ensures
        moves_fit(s),
{
    assert forall|i: int| #[trigger] starts_move_run(s, i) implies move_run_fits(
        s,
        i,
        move_run_len(s, i),
    ) by {
        lemma_move_run_extent(s, i);
        lemma_move_weight_concat(s.subrange(0, i), s.subrange(i, s.len() as int));
        assert(s =~= s.subrange(0, i) + s.subrange(i, s.len() as int));
        assert forall|j: nat| 1 <= j <= move_run_len(s, i) implies i32::MIN <= #[trigger] move_run_value(
            s,
            i,
            j,
        ) <= i32::MAX by {
            lemma_move_run_weight(s, i, j);
        }
    }
}

/// The optimised form of the instructions from `pos` on: each maximal run of
/// additions becomes one addition of their sum modulo 256, and each maximal
/// run of moves one move by their sum, a zero sum leaving nothing; a jump
/// straight to the label that follows it is dropped; every other instruction
/// stays as it is.
pub open spec fn optimize_from(s: Seq<Inst>, pos: int) -> Seq<Inst>
    decreases insts_left(s, pos),
{
    if pos < 0 || pos >= s.len() {
        Seq::empty()
    } else {
        match s[pos] {
            Inst::Add(_) => {
                let k = add_run_len(s, pos);
                let v = add_run_value(s, pos, k);
                (if v != 0 {
                    seq![Inst::Add(v)]
                } else {
                    Seq::empty()
                }) + optimize_from(s, pos + k)
            },
            Inst::Move(_) => {
                let k = move_run_len(s, pos);
                let v = move_run_value(s, pos, k);
                (if v != 0 {
                    seq![Inst::Move(v as i32)]
                } else {
                    Seq::empty()
                }) + optimize_from(s, pos + k)
            },
            Inst::Jump(l) => if falls_through(s, pos, l) {
                optimize_from(s, pos + 1)
            } else {
                seq![s[pos]] + optimize_from(s, pos + 1)
            },
            Inst::JumpIfZero(l) => if falls_through(s, pos, l) {
                optimize_from(s, pos + 1)
            } else {
                seq![s[pos]] + optimize_from(s, pos + 1)
            },
            _ => seq![s[pos]] + optimize_from(s, pos + 1),
        }
    }
}

/// The instruction after `pos` is the label `l`.
pub open spec fn falls_through(s: Seq<Inst>, pos: int, l: Label) -> bool {
    pos + 1 < s.len() && s[pos + 1] == Inst::Label(l)
}

/// The optimised form of a whole instruction sequence.
pub open spec fn optimize(s: Seq<Inst>) -> Seq<Inst> {
    optimize_from(s, 0)
}

/// A run of additions lies inside the sequence, holds only additions, and
/// stops at the end or at an instruction that is no addition.
pub proof fn lemma_add_run_extent(s: Seq<Inst>, pos: int)
    requires
        0 <= pos,
    ensures
        pos + add_run_len(s, pos) <= s.len() || add_run_len(s, pos) == 0,
        forall|j: int| pos <= j < pos + add_run_len(s, pos) ==> #[trigger] s[j] is Add,
        pos + add_run_len(s, pos) < s.len() ==> !(s[pos + add_run_len(s, pos)] is Add),
    decreases insts_left(s, pos),
{
    if 0 <= pos < s.len() && s[pos] is Add {
        lemma_add_run_extent(s, pos + 1);
    }
}

/// A run of moves lies inside the sequence, holds only moves, and stops at
/// the end or at an instruction that is no move.
pub proof fn lemma_move_run_extent(s: Seq<Inst>, pos: int)
    requires
        0 <= pos,
    ensures
        pos + move_run_len(s, pos) <= s.len() || move_run_len(s, pos) == 0,
        forall|j: int| pos <= j < pos + move_run_len(s, pos) ==> #[trigger] s[j] is Move,
        pos + move_run_len(s, pos) < s.len() ==> !(s[pos + move_run_len(s, pos)] is Move),
    decreases insts_left(s, pos),
{
    if 0 <= pos < s.len() && s[pos] is Move {
        lemma_move_run_extent(s, pos + 1);
    }
}

proof fn lemma_optimize_from_len(s: Seq<Inst>, pos: int)
    requires
        0 <= pos <= s.len(),
    ensures
        optimize_from(s, pos).len() <= s.len() - pos,
    decreases insts_left(s, pos),
{
    if pos < s.len() {
        match s[pos] {
            Inst::Add(_) => {
                lemma_add_run_extent(s, pos);
                lemma_optimize_from_len(s, pos + add_run_len(s, pos));
            },
            Inst::Move(_) => {
                lemma_move_run_extent(s, pos);
                lemma_optimize_from_len(s, pos + move_run_len(s, pos));
            },
            _ => {
                lemma_optimize_from_len(s, pos + 1);
            },
        }
    }
}

/// Optimisation never makes a program longer.
pub proof fn law_optimize_never_lengthens(s: Seq<Inst>)
    ensures
        optimize(s).len() <= s.len(),
{
    lemma_optimize_from_len(s, 0);
}

fn is_move(inst: &Inst) -> (r: bool)
    ensures
        r == (*inst is Move),
{
    match inst {
        Inst::Move(_) => true,
        _ => false,
    }
}

/// Whether every maximal run of moves in `s` can be summed in an `i32`.
pub fn check_moves_fit(s: &[Inst]) -> (r: bool)
    ensures
        r == moves_fit(s@),
{
    let n = s.len();
    let mut i: usize = 0;
    while i < n
        invariant
            n == s@.len(),
            i <= n,
            forall|j: int| 0 <= j < i && #[trigger] starts_move_run(s@, j) ==> move_run_fits(
                s@,
                j,
                move_run_len(s@, j),
            ),
            i > 0 && i < n ==> !(s@[i - 1] is Move && s@[i as int] is Move),
        decreases n - i,
    {
        if let Inst::Move(_) = s[i] {
            proof {
                assert(starts_move_run(s@, i as int));
                lemma_move_run_extent(s@, i as int);
            }
            let ghost len = move_run_len(s@, i as int);
            let mut sum: i64 = 0;
            let mut k: usize = 0;
            while i + k < n && is_move(&s[i + k])
                invariant
                    n == s@.len(),
                    i < n,
                    len == move_run_len(s@, i as int),
                    starts_move_run(s@, i as int),
                    i + len <= n,
                    forall|j: int| i <= j < i + len ==> #[trigger] s@[j] is Move,
                    i + len < n ==> !(s@[i + len] is Move),
                    k <= len,
                    sum == move_run_value(s@, i as int, k as nat),
                    move_run_fits(s@, i as int, k as nat),
                decreases n - (i + k),
            {
                let m = match s[i + k] {
                    Inst::Move(m) => m,
                    _ => 0,
                };
                assert(k < len) by {
                    if k >= len {
                        assert(i + len < n);
                    }
                }
                sum = sum + m as i64;
                assert(sum == move_run_value(s@, i as int, (k + 1) as nat));
                if sum < i32::MIN as i64 || sum > i32::MAX as i64 {
                    assert(!move_run_fits(s@, i as int, len));
                    assert(starts_move_run(s@, i as int));
                    return false;
                }
                k += 1;
            }
            assert(k == len) by {
                if k < len {
                    assert(s@[i + k] is Move);
                }
            }
            proof {
                assert forall|j: int| 0 <= j < i + k && #[trigger] starts_move_run(s@, j) implies move_run_fits(
                    s@,
                    j,
                    move_run_len(s@, j),
                ) by {
                    if j > i {
                        assert(s@[j - 1] is Move);
                    }
                }
            }
            i = i + k;
        } else {
            i += 1;
        }
    }
    true
}

/// Merges runs of additions and moves and drops jumps to the next instruction.
pub struct PeepholeOptimizer<'a> {
    target: &'a [Inst],
    pos: usize,
}

impl<'a> View for PeepholeOptimizer<'a> {
    /// The instructions and the position of the next one to look at.
    type V = (Seq<Inst>, int);

    closed spec fn view(&self) -> (Seq<Inst>, int) {
        (self.target@, self.pos as int)
    }
}

impl<'a> PeepholeOptimizer<'a> {
    pub fn new(target: &'a [Inst]) -> (r: Self)
        ensures
            r@ == (target@, 0int),
    {
        Self { target, pos: 0 }
    }

    fn peek(&self) -> (r: Option<&Inst>)
        ensures
            self.pos < self.target@.len() ==> r == Some(&self.target@[self.pos as int]),
            self.pos >= self.target@.len() ==> r is None,
    {
        if self.pos < self.target.len() {
            Some(&self.target[self.pos])
        } else {
            None
        }
    }

    fn step(&mut self)
        requires
            old(self).pos < old(self).target.len(),
        ensures
            final(self).target == old(self).target,
            final(self).pos == old(self).pos + 1,
    {
        self.pos += 1;
    }

    fn compact_adds(&mut self) -> (r: Option<Inst>)
        requires
            old(self).pos < old(self).target@.len(),
            old(self).target@[old(self).pos as int] is Add,
        ensures
            final(self).target == old(self).target,
            final(self).pos == old(self).pos + add_run_len(old(self).target@, old(self).pos as int),
            ({
                let v = add_run_value(
                    old(self).target@,
                    old(self).pos as int,
                    add_run_len(old(self).target@, old(self).pos as int),
                );
                r == if v != 0 {
                    Some(Inst::Add(v))
                } else {
                    None
                }
            }),
    {
        let ghost s = self.target@;
        let ghost p0 = self.pos as int;
        let mut value: i8 = 0;
        loop
            invariant
                self.target@ == s,
                p0 == old(self).pos,
                s == old(self).target@,
                p0 <= self.pos <= s.len(),
                add_run_len(s, p0) == (self.pos - p0) + add_run_len(s, self.pos as int),
                value == add_run_value(s, p0, (self.pos - p0) as nat),
            ensures
                self.target@ == s,
                self.pos == p0 + add_run_len(s, p0),
                value == add_run_value(s, p0, add_run_len(s, p0)),
            decreases s.len() - self.pos,
        {
            match self.peek() {
                Some(Inst::Add(n)) => {
                    assert(add_run_len(s, self.pos as int) == 1 + add_run_len(s, self.pos + 1));
                    value = value.wrapping_add(*n);
                    self.step();
                },
                _ => {
                    assert(add_run_len(s, self.pos as int) == 0);
                    break;
                },
            }
        }
        if value != 0 {
            Some(Inst::Add(value))
        } else {
            None
        }
    }

    fn compact_moves(&mut self) -> (r: Option<Inst>)
        requires
            old(self).pos < old(self).target@.len(),
            old(self).target@[old(self).pos as int] is Move,
            move_run_fits(
                old(self).target@,
                old(self).pos as int,
                move_run_len(old(self).target@, old(self).pos as int),
            ),
        ensures
            final(self).target == old(self).target,
            final(self).pos == old(self).pos + move_run_len(old(self).target@, old(self).pos as int),
            ({
                let v = move_run_value(
                    old(self).target@,
                    old(self).pos as int,
                    move_run_len(old(self).target@, old(self).pos as int),
                );
                r == if v != 0 {
                    Some(Inst::Move(v as i32))
                } else {
                    None
                }
            }),
    {
        let ghost s = self.target@;
        let ghost p0 = self.pos as int;
        let ghost k = move_run_len(s, p0);
        let mut value: i32 = 0;
        loop
            invariant
                self.target@ == s,
                p0 == old(self).pos,
                s == old(self).target@,
                k == move_run_len(s, p0),
                move_run_fits(s, p0, k),
                p0 <= self.pos <= s.len(),
                k == (self.pos - p0) + move_run_len(s, self.pos as int),
                value == move_run_value(s, p0, (self.pos - p0) as nat),
            ensures
                self.target@ == s,
                self.pos == p0 + k,
                value == move_run_value(s, p0, k),
            decreases s.len() - self.pos,
        {
            match self.peek() {
                Some(Inst::Move(n)) => {
                    assert(move_run_len(s, self.pos as int) == 1 + move_run_len(s, self.pos + 1));
                    assert(move_run_value(s, p0, (self.pos - p0 + 1) as nat) == value + *n);
                    assert(1 <= (self.pos - p0 + 1) as nat <= k);
                    value += *n;
                    self.step();
                },
                _ => {
                    assert(move_run_len(s, self.pos as int) == 0);
                    break;
                },
            }
        }
        if value != 0 {
            Some(Inst::Move(value))
        } else {
            None
        }
    }

    fn clean_jump(&mut self) -> (r: Option<Inst>)
        requires
            old(self).pos < old(self).target@.len(),
            old(self).target@[old(self).pos as int] matches Inst::Jump(_) || old(
                self,
            ).target@[old(self).pos as int] matches Inst::JumpIfZero(_),
        ensures
            final(self).target == old(self).target,
            final(self).pos == old(self).pos + 1,
            ({
                let s = old(self).target@;
                let p = old(self).pos as int;
                let l = match s[p] {
                    Inst::Jump(l) => l,
                    Inst::JumpIfZero(l) => l,
                    _ => Label(0),
                };
                r == if falls_through(s, p, l) {
                    None
                } else {
                    Some(s[p])
                }
            }),
    {
        let jump = self.peek().unwrap().clone();
        let jump_label = match jump {
            Inst::Jump(l) => l,
            Inst::JumpIfZero(l) => l,
            _ => Label(0),
        };

        self.step();

        let label = match self.peek() {
            Some(Inst::Label(l)) => l,
            _ => return Some(jump),
        };

        if jump_label.0 == label.0 {
            None
        } else {
            Some(jump)
        }
    }

    /// The optimised instructions.
    pub fn optimize(self) -> (r: Vec<Inst>)
        requires
            self@.1 == 0,
            moves_fit(self@.0),
        ensures
            r@ == optimize(self@.0),
    {
        let mut opt = self;
        let ghost s = opt.target@;
        let mut res: Vec<Inst> = Vec::new();

        loop
            invariant_except_break
                opt.target@ == s,
                moves_fit(s),
                0 <= opt.pos <= s.len(),
                optimize(s) == res@ + optimize_from(s, opt.pos as int),
                opt.pos < s.len() && s[opt.pos as int] is Move ==> starts_move_run(s, opt.pos as int),
            ensures
                optimize(s) == res@,
            decreases s.len() - opt.pos,
        {
            let ghost p = opt.pos as int;
            let ghost prev = res@;
            match opt.peek() {
                None => {
                    assert(res@ + Seq::<Inst>::empty() =~= res@);
                    break;
                },
                Some(Inst::Add(_)) => {
                    if let Some(inst) = opt.compact_adds() {
                        res.push(inst);
                    }
                    assert(res@ + optimize_from(s, opt.pos as int) =~= prev + optimize_from(s, p));
                    proof {
                        lemma_run_end_not_move(s, p, add_run_len(s, p), true);
                    }
                },
                Some(Inst::Move(_)) => {
                    assert(starts_move_run(s, p));
                    if let Some(inst) = opt.compact_moves() {
                        res.push(inst);
                    }
                    assert(res@ + optimize_from(s, opt.pos as int) =~= prev + optimize_from(s, p));
                    proof {
                        lemma_run_end_not_move(s, p, move_run_len(s, p), false);
                    }
                },
                Some(Inst::Input) => {
                    res.push(Inst::Input);
                    opt.step();
                    assert(res@ + optimize_from(s, opt.pos as int) =~= prev + optimize_from(s, p));
                },
                Some(Inst::Output) => {
                    res.push(Inst::Output);
                    opt.step();
                    assert(res@ + optimize_from(s, opt.pos as int) =~= prev + optimize_from(s, p));
                },
                Some(Inst::Jump(_)) | Some(Inst::JumpIfZero(_)) => {
                    if let Some(inst) = opt.clean_jump() {
                        res.push(inst);
                    }
                    assert(res@ + optimize_from(s, opt.pos as int) =~= prev + optimize_from(s, p));
                },
                Some(Inst::Label(l)) => {
                    res.push(Inst::Label(*l));
                    opt.step();
                    assert(res@ + optimize_from(s, opt.pos as int) =~= prev + optimize_from(s, p));
                },
            }
        }

        res
    }
}

/// A run of additions (or of moves) ends where the sequence ends or at an
/// instruction of another kind; after a run of additions, a move starts a run.
proof fn lemma_run_end_not_move(s: Seq<Inst>, p: int, k: nat, adds: bool)
    requires
        0 <= p < s.len(),
        adds ==> s[p] is Add && k == add_run_len(s, p),
        !adds ==> s[p] is Move && k == move_run_len(s, p),
    ensures
        p + k <= s.len(),
        k >= 1,
        adds ==> (p + k < s.len() && s[p + k] is Move ==> starts_move_run(s, p + k)),
        !adds ==> !(p + k < s.len() && s[p + k] is Move),
    decreases s.len() - p,
{
    assert(add_run_len(s, p) == 1 + add_run_len(s, p + 1) || !adds);
    assert(move_run_len(s, p) == 1 + move_run_len(s, p + 1) || adds);
    if p + 1 >= s.len() {
        assert(add_run_len(s, p + 1) == 0);
        assert(move_run_len(s, p + 1) == 0);
    }
    if p + 1 < s.len() {
        assert(!(s[p + 1] is Add) ==> add_run_len(s, p + 1) == 0);
        assert(!(s[p + 1] is Move) ==> move_run_len(s, p + 1) == 0);
        if adds && s[p + 1] is Add {
            lemma_run_end_not_move(s, p + 1, (k - 1) as nat, adds);
        } else if !adds && s[p + 1] is Move {
            lemma_run_end_not_move(s, p + 1, (k - 1) as nat, adds);
        }
    }
}

} // verus!
