use vstd::prelude::*;
use vstd::string::*;

use crate::codegen::code_file::{text_less, text_lt};
use crate::codegen::inst_translator::{
    lemma_lines_view_append, lines_view, text_line, translate_spec, CodeLine, InstTranslator,
};
use crate::ir::inst::Inst;
use crate::ir::ir::IR;

verus! {

/// A Brainfuck program translated into one C function.
#[derive(Debug)]
pub struct CFunction {
    pub name: String,
    pub lines: Vec<CodeLine>,
}

impl PartialEq for CFunction {
    /// Functions are told apart by their names.
    fn eq(&self, other: &Self) -> (r: bool) {
        self.name == other.name
    }
}

impl vstd::std_specs::cmp::PartialEqSpecImpl for CFunction {
    open spec fn obeys_eq_spec() -> bool {
        true
    }

    open spec fn eq_spec(&self, other: &Self) -> bool {
        self.name@ == other.name@
    }
}

impl Eq for CFunction {

}

impl PartialOrd for CFunction {
    /// Functions are ordered by their names, in dictionary order.
    fn partial_cmp(&self, other: &Self) -> (r: Option<core::cmp::Ordering>) {
        if text_less(self.name.as_str(), other.name.as_str()) {
            Some(core::cmp::Ordering::Less)
        } else if text_less(other.name.as_str(), self.name.as_str()) {
            Some(core::cmp::Ordering::Greater)
        } else {
            Some(core::cmp::Ordering::Equal)
        }
    }
}

impl vstd::std_specs::cmp::PartialOrdSpecImpl for CFunction {
    open spec fn obeys_partial_cmp_spec() -> bool {
        true
    }

    open spec fn partial_cmp_spec(&self, other: &Self) -> Option<core::cmp::Ordering> {
        if text_lt(self.name@, other.name@) {
            Some(core::cmp::Ordering::Less)
        } else if text_lt(other.name@, self.name@) {
            Some(core::cmp::Ordering::Greater)
        } else {
            Some(core::cmp::Ordering::Equal)
        }
    }
}

/// The C signature of the function named `name`.
pub open spec fn signature_text(name: Seq<char>) -> Seq<char> {
    "bf_bool_t "@ + name + "(BFCalls calls, BFRuntimeEnv* env, BFRuntimeReport* report)"@
}

/// The lines before the translated instructions: the signature opening the
/// body, the cleared report, and the tape and position set up.
pub open spec fn prologue_spec(name: Seq<char>) -> Seq<(usize, Seq<char>)> {
    seq![
        text_line(0, signature_text(name) + " {"@),
        text_line(0, "// Preparation starts."@),
        text_line(4, "*report = (BFRuntimeReport){"@),
        text_line(8, ".file_name = __FILE__,"@),
        text_line(8, ".func_name = __func__,"@),
        text_line(8, ".error_kind = NoBFError,"@),
        text_line(4, "};"@),
        text_line(0, Seq::empty()),
        text_line(4, "const bf_size_t TAPE_LEN = calls.tape_len(env);"@),
        text_line(4, "bf_byte_t* tape = calls.get_tape(env);"@),
        text_line(4, "bf_off_t pos = 0;"@),
        text_line(0, "// Preparation ends."@),
        text_line(0, Seq::empty()),
        text_line(0, "// Code starts."@),
    ]
}

/// The lines after the translated instructions.
pub open spec fn epilogue_spec() -> Seq<(usize, Seq<char>)> {
    seq![
        text_line(0, "// Code ends."@),
        text_line(0, Seq::empty()),
        text_line(4, "return BF_TRUE;"@),
        text_line(0, "}"@),
    ]
}

/// The lines of all instructions, each translated in turn.
pub open spec fn body_spec(insts: Seq<Inst>, boundary_check: bool) -> Seq<(usize, Seq<char>)>
    decreases insts.len(),
{
    if insts.len() == 0 {
        Seq::empty()
    } else {
        body_spec(insts.subrange(0, insts.len() - 1), boundary_check) + translate_spec(
            insts[insts.len() - 1],
            boundary_check,
        )
    }
}

/// The lines of the whole function.
pub open spec fn function_spec(name: Seq<char>, insts: Seq<Inst>, boundary_check: bool) -> Seq<
    (usize, Seq<char>),
> {
    prologue_spec(name) + body_spec(insts, boundary_check) + epilogue_spec()
}

fn line(indents: usize, text: &str) -> (r: CodeLine)
    ensures
        r@ == text_line(indents, text@),
{
    CodeLine::new(indents, String::from_str(text))
}

impl CFunction {
    pub fn signature(name: &str) -> (r: String)
        ensures
            r@ == signature_text(name@),
    {
        let mut s = String::from_str("bf_bool_t ");
        s.append(name);
        s.append("(BFCalls calls, BFRuntimeEnv* env, BFRuntimeReport* report)");
        s
    }

    /// The function's name.
    pub fn name(&self) -> (r: &str)
        ensures
            r@ == self.name@,
    {
        self.name.as_str()
    }

    pub fn new(name: &str, ir: IR, boundary_check: bool) -> (r: Self)
        ensures
            r.name@ == name@,
            lines_view(r.lines@) == function_spec(name@, ir@, boundary_check),
    {
        let mut lines: Vec<CodeLine> = Vec::new();

        let mut pro = Self::prologue(name);
        proof {
            lemma_lines_view_append(lines@, pro@);
        }
        lines.append(&mut pro);

        let translator = InstTranslator::new(boundary_check);
        let insts = ir.instructions();
        let mut i: usize = 0;
        while i < insts.len()
            invariant
                translator@ == boundary_check,
                insts@ == ir@,
                0 <= i <= insts@.len(),
                lines_view(lines@) == prologue_spec(name@) + body_spec(
                    insts@.subrange(0, i as int),
                    boundary_check,
                ),
            decreases insts@.len() - i,
        {
            let mut inst_lines = translator.translate_one(&insts[i]);
            proof {
                lemma_lines_view_append(lines@, inst_lines@);
                let next = insts@.subrange(0, i + 1);
                assert(next.subrange(0, i as int) =~= insts@.subrange(0, i as int));
                assert(next[i as int] == insts@[i as int]);
            }
            lines.append(&mut inst_lines);
            i += 1;
        }
        assert(insts@.subrange(0, insts@.len() as int) =~= ir@);

        let mut epi = Self::epilogue();
        proof {
            lemma_lines_view_append(lines@, epi@);
        }
        lines.append(&mut epi);

        Self { name: String::from_str(name), lines }
    }

    fn prologue(name: &str) -> (r: Vec<CodeLine>)
        ensures
            lines_view(r@) == prologue_spec(name@),
    {
        let mut lines: Vec<CodeLine> = Vec::new();

        let mut first = Self::signature(name);
        first.append(" {");
        lines.push(CodeLine::new(0, first));
        lines.push(line(0, "// Preparation starts."));
        lines.push(line(4, "*report = (BFRuntimeReport){"));
        lines.push(line(8, ".file_name = __FILE__,"));
        lines.push(line(8, ".func_name = __func__,"));
        lines.push(line(8, ".error_kind = NoBFError,"));
        lines.push(line(4, "};"));
        lines.push(CodeLine::new_empty_line());
        lines.push(line(4, "const bf_size_t TAPE_LEN = calls.tape_len(env);"));
        lines.push(line(4, "bf_byte_t* tape = calls.get_tape(env);"));
        lines.push(line(4, "bf_off_t pos = 0;"));
        lines.push(line(0, "// Preparation ends."));
        lines.push(CodeLine::new_empty_line());
        lines.push(line(0, "// Code starts."));

        assert(lines_view(lines@) =~= prologue_spec(name@));
        lines
    }

    fn epilogue() -> (r: Vec<CodeLine>)
        ensures
            lines_view(r@) == epilogue_spec(),
    {
        let mut lines: Vec<CodeLine> = Vec::new();

        lines.push(line(0, "// Code ends."));
        lines.push(CodeLine::new_empty_line());
        lines.push(line(4, "return BF_TRUE;"));
        lines.push(line(0, "}"));

        assert(lines_view(lines@) =~= epilogue_spec());
        lines
    }
}

} // verus!
