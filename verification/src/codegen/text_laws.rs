use vstd::prelude::*;

use crate::codegen::c_func::{body_spec, epilogue_spec, function_spec, prologue_spec, signature_text};
use crate::codegen::decimal::{
    decimal, digits_value, law_decimal_reads_back, law_signed_decimal_reads_back, signed_decimal,
    signed_value,
};
use crate::codegen::inst_translator::{text_line, translate_spec};
use crate::ir::inst::{Inst, Label};

verus! {

/// The line of C that starts the check of a move against the tape's ends.
pub open spec fn check_line() -> (usize, Seq<char>) {
    (8usize, "if (new_pos >= TAPE_LEN) {"@)
}

/// How many of the lines are `l`.
pub open spec fn count_line(ls: Seq<(usize, Seq<char>)>, l: (usize, Seq<char>)) -> nat
    decreases ls.len(),
{
    if ls.len() == 0 {
        0
    } else {
        count_line(ls.drop_last(), l) + (if ls.last() == l {
            1nat
        } else {
            0nat
        })
    }
}

/// How many of the instructions are moves.
pub open spec fn count_moves(s: Seq<Inst>) -> nat
    decreases s.len(),
{
    if s.len() == 0 {
        0
    } else {
        count_moves(s.drop_last()) + (if s.last() is Move {
            1nat
        } else {
            0nat
        })
    }
}

proof fn lemma_count_concat(a: Seq<(usize, Seq<char>)>, b: Seq<(usize, Seq<char>)>, l: (usize, Seq<char>))
    ensures
        count_line(a + b, l) == count_line(a, l) + count_line(b, l),
    decreases b.len(),
{
    if b.len() == 0 {
        assert(a + b =~= a);
    } else {
        lemma_count_concat(a, b.drop_last(), l);
        assert((a + b).drop_last() =~= a + b.drop_last());
    }
}

proof fn lemma_count_none(ls: Seq<(usize, Seq<char>)>, l: (usize, Seq<char>))
    requires
        forall|i: int| 0 <= i < ls.len() ==> #[trigger] ls[i] != l,
    ensures
        count_line(ls, l) == 0,
    decreases ls.len(),
{
    if ls.len() > 0 {
        assert(ls.last() != l);
        lemma_count_none(ls.drop_last(), l);
    }
}

/// A line that is not indented by eight, or whose text does not start with
/// `i`, is no check line.
proof fn lemma_not_check(x: (usize, Seq<char>))
    requires
        x.0 != 8 || (x.1.len() > 0 && x.1[0] != 'i'),
    ensures
        x != check_line(),
{
    reveal_strlit("if (new_pos >= TAPE_LEN) {");
}

/// The translation of a move, with checks on and off. The new position is
/// the old one plus `n`, written as a numeral that reads back as `n`; with
/// checks on, the four lines of the check follow, reporting an overflow
/// for a move to the right and an underflow for one to the left; with
/// checks off, those four lines are all that is missing.
pub proof fn law_move_translation(n: i32)
    ensures
        ({
            let on = translate_spec(Inst::Move(n), true);
            let off = translate_spec(Inst::Move(n), false);
            &&& on.len() == 8
            &&& off =~= on.subrange(0, 2) + on.subrange(6, 8)
            &&& on[0] == (4usize, "{"@)
            &&& on[1] == (8usize, "bf_off_t new_pos = pos + "@ + signed_decimal(n as int) + ";"@)
            &&& signed_value(signed_decimal(n as int)) == n
            &&& on[2] == check_line()
            &&& on[3] == (12usize, "report->error_kind = "@ + (if n >= 0 {
                "BFErrorOverflow"@
            } else {
                "BFErrorUnderflow"@
            }) + ";"@)
            &&& on[4] == (12usize, "return BF_FALSE;"@)
            &&& on[5] == (8usize, "}"@)
            &&& on[6] == (8usize, "pos = new_pos;"@)
            &&& on[7] == (4usize, "}"@)
        }),
{
    law_signed_decimal_reads_back(n as int);
}

/// A whole function, whatever the check setting: it opens with its
/// signature, closes with `// Code ends.`, an empty line, `return BF_TRUE;`
/// and `}`; the opening fourteen lines and the closing four do not depend on
/// the instructions or the setting; and one more instruction adds its lines
/// just before the closing ones.
pub proof fn law_function_frame(name: Seq<char>, insts: Seq<Inst>, boundary_check: bool, i: Inst)
    ensures
        ({
            let f = function_spec(name, insts, boundary_check);
            let g = function_spec(name, insts.push(i), boundary_check);
            let closing = seq![
                (0usize, "// Code ends."@),
                (0usize, Seq::<char>::empty()),
                (4usize, "return BF_TRUE;"@),
                (0usize, "}"@),
            ];
            &&& f.len() >= 18
            &&& f[0] == (0usize, "bf_bool_t "@ + name
                + "(BFCalls calls, BFRuntimeEnv* env, BFRuntimeReport* report)"@ + " {"@)
            &&& f.subrange(f.len() - 4, f.len() as int) == closing
            &&& f.subrange(0, 14) == function_spec(name, Seq::empty(), !boundary_check).subrange(0, 14)
            &&& function_spec(name, Seq::empty(), boundary_check).len() == 18
            &&& g == f.subrange(0, f.len() - 4) + translate_spec(i, boundary_check) + closing
        }),
{
    let f = function_spec(name, insts, boundary_check);
    let b = body_spec(insts, boundary_check);
    let closing = seq![
        (0usize, "// Code ends."@),
        (0usize, Seq::<char>::empty()),
        (4usize, "return BF_TRUE;"@),
        (0usize, "}"@),
    ];
    assert(epilogue_spec() == closing);
    assert(body_spec(Seq::<Inst>::empty(), boundary_check) =~= Seq::empty());
    assert(body_spec(Seq::<Inst>::empty(), !boundary_check) =~= Seq::empty());
    assert(f.subrange(f.len() - 4, f.len() as int) =~= closing);
    assert(f.subrange(0, 14) =~= prologue_spec(name));
    assert(function_spec(name, Seq::empty(), !boundary_check).subrange(0, 14) =~= prologue_spec(name));
    let ip = insts.push(i);
    assert(ip.subrange(0, ip.len() - 1) =~= insts);
    assert(body_spec(ip, boundary_check) == b + translate_spec(i, boundary_check));
    assert(f.subrange(0, f.len() - 4) =~= prologue_spec(name) + b);
    assert(function_spec(name, ip, boundary_check) =~= f.subrange(0, f.len() - 4) + translate_spec(
        i,
        boundary_check,
    ) + closing);
    assert(f[0] == prologue_spec(name)[0]);
    assert(signature_text(name) + " {"@ == "bf_bool_t "@ + name
        + "(BFCalls calls, BFRuntimeEnv* env, BFRuntimeReport* report)"@ + " {"@);
}

/// The check lines of one instruction: one for a move with checks on, none
/// otherwise.
proof fn lemma_translation_checks(i: Inst, boundary_check: bool)
    ensures
        count_line(translate_spec(i, boundary_check), check_line()) == (if boundary_check && i is Move {
            1nat
        } else {
            0nat
        }),
{
    let t = translate_spec(i, boundary_check);
    reveal_strlit("bf_off_t new_pos = pos + ");
    reveal_strlit("pos = new_pos;");
    reveal_strlit("}");
    reveal_strlit("report->error_kind = BFErrorInStream;");
    reveal_strlit("report->error_kind = BFErrorOutStream;");
    reveal_strlit("return BF_FALSE;");
    match i {
        Inst::Move(n) => {
            if boundary_check {
                let head = t.subrange(0, 2);
                let mid = seq![check_line()];
                let tail = t.subrange(3, 8);
                assert(t =~= head + mid + tail);
                lemma_count_concat(head + mid, tail, check_line());
                lemma_count_concat(head, mid, check_line());
                assert forall|k: int| 0 <= k < head.len() implies #[trigger] head[k] != check_line() by {
                    lemma_not_check(head[k]);
                }
                lemma_count_none(head, check_line());
                assert forall|k: int| 0 <= k < tail.len() implies #[trigger] tail[k] != check_line() by {
                    lemma_not_check(tail[k]);
                }
                lemma_count_none(tail, check_line());
                assert(mid.drop_last() =~= Seq::<(usize, Seq<char>)>::empty());
                assert(count_line(Seq::<(usize, Seq<char>)>::empty(), check_line()) == 0);
                assert(count_line(mid.drop_last(), check_line()) == 0);
                assert(mid.last() == check_line());
                assert(count_line(mid, check_line()) == 1);
                assert(count_line(head + mid, check_line()) == 1);
                assert(count_line(t, check_line()) == 1);
            } else {
                assert forall|k: int| 0 <= k < t.len() implies #[trigger] t[k] != check_line() by {
                    lemma_not_check(t[k]);
                }
                lemma_count_none(t, check_line());
            }
        },
        _ => {
            assert forall|k: int| 0 <= k < t.len() implies #[trigger] t[k] != check_line() by {
                lemma_not_check(t[k]);
            }
            lemma_count_none(t, check_line());
        },
    }
}

proof fn lemma_body_checks(insts: Seq<Inst>, boundary_check: bool)
    ensures
        count_line(body_spec(insts, boundary_check), check_line()) == (if boundary_check {
            count_moves(insts)
        } else {
            0nat
        }),
    decreases insts.len(),
{
    if insts.len() > 0 {
        let init = insts.subrange(0, insts.len() - 1);
        lemma_body_checks(init, boundary_check);
        lemma_translation_checks(insts.last(), boundary_check);
        lemma_count_concat(
            body_spec(init, boundary_check),
            translate_spec(insts.last(), boundary_check),
            check_line(),
        );
        assert(insts.drop_last() == init);
    }
}

/// Moves are checked exactly as the setting says: with checks on, a
/// function holds one check per move of its instructions; with checks
/// off, none.
pub proof fn law_checks_follow_the_setting(name: Seq<char>, insts: Seq<Inst>, boundary_check: bool)
    ensures
        count_line(function_spec(name, insts, boundary_check), check_line()) == (if boundary_check {
            count_moves(insts)
        } else {
            0nat
        }),
{
    lemma_body_checks(insts, boundary_check);
    let p = prologue_spec(name);
    let e = epilogue_spec();
    reveal_strlit(".file_name = __FILE__,");
    reveal_strlit(".func_name = __func__,");
    reveal_strlit(".error_kind = NoBFError,");
    assert forall|k: int| 0 <= k < p.len() implies #[trigger] p[k] != check_line() by {
        lemma_not_check(p[k]);
    }
    assert forall|k: int| 0 <= k < e.len() implies #[trigger] e[k] != check_line() by {
        lemma_not_check(e[k]);
    }
    lemma_count_none(p, check_line());
    lemma_count_none(e, check_line());
    lemma_count_concat(p + body_spec(insts, boundary_check), e, check_line());
    lemma_count_concat(p, body_spec(insts, boundary_check), check_line());
}

/// The translations of the other instructions, which do not depend on the
/// check setting: an addition adds `n`, written as a numeral that reads back
/// as `n`; a label and the jumps to it use the same name, `L` and the
/// numeral of the label's number; a read and a write report a failed
/// stream and return `BF_FALSE`.
pub proof fn law_other_translations(n: i8, id: usize, boundary_check: bool)
    ensures
        translate_spec(Inst::Add(n), boundary_check) == seq![
            (4usize, "tape[pos] += "@ + signed_decimal(n as int) + ";"@),
        ],
        signed_value(signed_decimal(n as int)) == n,
        translate_spec(Inst::Label(Label(id)), boundary_check) == seq![
            (0usize, "L"@ + decimal(id as nat) + ":"@),
        ],
        translate_spec(Inst::Jump(Label(id)), boundary_check) == seq![
            (4usize, "goto L"@ + decimal(id as nat) + ";"@),
        ],
        translate_spec(Inst::JumpIfZero(Label(id)), boundary_check) == seq![
            (4usize, "if (0 == tape[pos]) goto L"@ + decimal(id as nat) + ";"@),
        ],
        digits_value(decimal(id as nat)) == id,
        translate_spec(Inst::Input, boundary_check) == seq![
            (4usize, "if (!calls.getchar(env, tape + pos)) {"@),
            (8usize, "report->error_kind = BFErrorInStream;"@),
            (8usize, "return BF_FALSE;"@),
            (4usize, "}"@),
        ],
        translate_spec(Inst::Output, boundary_check) == seq![
            (4usize, "if (!calls.putchar(env, tape[pos])) {"@),
            (8usize, "report->error_kind = BFErrorOutStream;"@),
            (8usize, "return BF_FALSE;"@),
            (4usize, "}"@),
        ],
{
    law_signed_decimal_reads_back(n as int);
    law_decimal_reads_back(id as nat);
}

} // verus!
