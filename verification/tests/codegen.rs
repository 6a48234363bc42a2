use bf_lab::codegen::c_func::CFunction;
use bf_lab::codegen::decimal::{signed_to_string, unsigned_to_string};
use bf_lab::codegen::inst_translator::{CodeLine, InstTranslator};
use bf_lab::ir::inst::{Inst, Label};

fn text(lines: Vec<CodeLine>) -> Vec<String> {
    lines.iter().map(|l| l.as_string()).collect()
}

#[test]
fn decimal_numerals() {
    assert_eq!(unsigned_to_string(0), "0");
    assert_eq!(unsigned_to_string(907), "907");
    assert_eq!(unsigned_to_string(u64::MAX), u64::MAX.to_string());
    assert_eq!(signed_to_string(-128), "-128");
    assert_eq!(signed_to_string(i64::MIN), i64::MIN.to_string());
    assert_eq!(signed_to_string(42), "42");
}

#[test]
fn code_lines() {
    assert_eq!(CodeLine::new(3, "x;".to_string()).as_string(), "   x;");
    assert_eq!(CodeLine::new_empty_line().as_string(), "");
}

#[test]
fn signature_text() {
    assert_eq!(
        CFunction::signature("f"),
        "bf_bool_t f(BFCalls calls, BFRuntimeEnv* env, BFRuntimeReport* report)"
    );
}

#[test]
fn moves_with_and_without_checks() {
    let checked = InstTranslator::new(true);
    assert_eq!(
        text(checked.translate_one(&Inst::Move(-2))),
        vec![
            "    {",
            "        bf_off_t new_pos = pos + -2;",
            "        if (new_pos >= TAPE_LEN) {",
            "            report->error_kind = BFErrorUnderflow;",
            "            return BF_FALSE;",
            "        }",
            "        pos = new_pos;",
            "    }",
        ]
    );
    let unchecked = InstTranslator::new(false);
    assert_eq!(
        text(unchecked.translate_one(&Inst::Move(0))),
        vec!["    {", "        bf_off_t new_pos = pos + 0;", "        pos = new_pos;", "    }"]
    );
}

#[test]
fn other_instructions() {
    let t = InstTranslator::new(true);
    assert_eq!(text(t.translate_one(&Inst::Add(-128))), vec!["    tape[pos] += -128;"]);
    assert_eq!(text(t.translate_one(&Inst::Label(Label(12)))), vec!["L12:"]);
    assert_eq!(text(t.translate_one(&Inst::Jump(Label(3)))), vec!["    goto L3;"]);
    assert_eq!(
        text(t.translate_one(&Inst::JumpIfZero(Label(0)))),
        vec!["    if (0 == tape[pos]) goto L0;"]
    );
    assert_eq!(
        text(t.translate_one(&Inst::Input)),
        vec![
            "    if (!calls.getchar(env, tape + pos)) {",
            "        report->error_kind = BFErrorInStream;",
            "        return BF_FALSE;",
            "    }",
        ]
    );
}
