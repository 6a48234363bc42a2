use vstd::prelude::*;
use vstd::string::*;

use crate::codegen::decimal::{decimal, signed_decimal, signed_to_string, unsigned_to_string};
use crate::ir::inst::{Inst, Label};

verus! {

/// One line of C: its indentation and its text.
#[derive(Debug)]
pub struct CodeLine {
    indents: usize,
    content: String,
}

impl View for CodeLine {
    /// The number of leading spaces and the text after them.
    type V = (usize, Seq<char>);

    closed spec fn view(&self) -> (usize, Seq<char>) {
        (self.indents, self.content@)
    }
}

/// `n` spaces.
pub open spec fn spaces(n: nat) -> Seq<char> {
    Seq::new(n, |i: int| ' ')
}

/// The views of a sequence of lines.
pub open spec fn lines_view(ls: Seq<CodeLine>) -> Seq<(usize, Seq<char>)> {
    ls.map_values(|l: CodeLine| l@)
}

pub proof fn lemma_lines_view_append(a: Seq<CodeLine>, b: Seq<CodeLine>)
    ensures
        lines_view(a + b) == lines_view(a) + lines_view(b),
{
    assert(lines_view(a + b) =~= lines_view(a) + lines_view(b));
}

impl CodeLine {
    pub fn new(indents: usize, content: String) -> (r: Self)
        ensures
            r@ == (indents, content@),
    {
        Self { indents, content }
    }

    pub fn new_empty_line() -> (r: Self)
        ensures
            r@ == (0usize, Seq::<char>::empty()),
    {
        Self::new(0, String::new())
    }

    /// The line as text: the indentation as spaces, then the content.
    pub fn as_string(&self) -> (r: String)
        ensures
            r@ == spaces(self@.0 as nat) + self@.1,
    {
        let mut s = String::new();
        let mut i: usize = 0;
        while i < self.indents
            invariant
                i <= self.indents,
                s@ == spaces(i as nat),
            decreases self.indents - i,
        {
            proof {
                reveal_strlit(" ");
            }
            s.append(" ");
            i += 1;
            assert(s@ =~= spaces(i as nat));
        }
        s.append(self.content.as_str());
        s
    }
}

/// A line built from an indentation and a text.
pub open spec fn text_line(indents: usize, text: Seq<char>) -> (usize, Seq<char>) {
    (indents, text)
}

/// The lines of C for one instruction. The cell pointer `pos` and the tape
/// length `TAPE_LEN` are unsigned, so one comparison catches a move past
/// either end; with boundary checks off a move is not checked at all.
pub open spec fn translate_spec(inst: Inst, boundary_check: bool) -> Seq<(usize, Seq<char>)> {
    match inst {
        Inst::Add(n) => seq![text_line(4, "tape[pos] += "@ + signed_decimal(n as int) + ";"@)],
        Inst::Move(n) => seq![
            text_line(4, "{"@),
            text_line(8, "bf_off_t new_pos = pos + "@ + signed_decimal(n as int) + ";"@),
        ] + (if boundary_check {
            seq![
                text_line(8, "if (new_pos >= TAPE_LEN) {"@),
                text_line(
                    12,
                    "report->error_kind = "@ + (if n >= 0 {
                        "BFErrorOverflow"@
                    } else {
                        "BFErrorUnderflow"@
                    }) + ";"@,
                ),
                text_line(12, "return BF_FALSE;"@),
                text_line(8, "}"@),
            ]
        } else {
            Seq::empty()
        }) + seq![text_line(8, "pos = new_pos;"@), text_line(4, "}"@)],
        Inst::Input => seq![
            text_line(4, "if (!calls.getchar(env, tape + pos)) {"@),
            text_line(8, "report->error_kind = BFErrorInStream;"@),
            text_line(8, "return BF_FALSE;"@),
            text_line(4, "}"@),
        ],
        Inst::Output => seq![
            text_line(4, "if (!calls.putchar(env, tape[pos])) {"@),
            text_line(8, "report->error_kind = BFErrorOutStream;"@),
            text_line(8, "return BF_FALSE;"@),
            text_line(4, "}"@),
        ],
        Inst::Label(Label(id)) => seq![text_line(0, "L"@ + decimal(id as nat) + ":"@)],
        Inst::Jump(Label(id)) => seq![text_line(4, "goto L"@ + decimal(id as nat) + ";"@)],
        Inst::JumpIfZero(Label(id)) => seq![
            text_line(4, "if (0 == tape[pos]) goto L"@ + decimal(id as nat) + ";"@),
        ],
    }
}

/// `prefix`, then the text of `middle`, then `suffix`.
fn surround(prefix: &str, middle: String, suffix: &str) -> (r: String)
    ensures
        r@ == prefix@ + middle@ + suffix@,
{
    let mut s = String::from_str(prefix);
    s.append(middle.as_str());
    s.append(suffix);
    s
}

fn line(indents: usize, text: &str) -> (r: CodeLine)
    ensures
        r@ == text_line(indents, text@),
{
    CodeLine::new(indents, String::from_str(text))
}

/// Translates instructions into lines of C.
pub struct InstTranslator {
    boundary_check: bool,
}

impl View for InstTranslator {
    /// Whether moves are checked against the tape's ends.
    type V = bool;

    closed spec fn view(&self) -> bool {
        self.boundary_check
    }
}

impl InstTranslator {
    pub fn new(boundary_check: bool) -> (r: Self)
        ensures
            r@ == boundary_check,
    {
        Self { boundary_check }
    }

    pub fn translate_one(&self, inst: &Inst) -> (r: Vec<CodeLine>)
        ensures
            lines_view(r@) == translate_spec(*inst, self@),
    {
        let mut lines: Vec<CodeLine> = Vec::new();

        match inst {
            Inst::Add(n) => {
                lines.push(
                    CodeLine::new(4, surround("tape[pos] += ", signed_to_string(*n as i64), ";")),
                );
            },
            Inst::Move(n) => {
                lines.push(line(4, "{"));
                lines.push(
                    CodeLine::new(
                        8,
                        surround("bf_off_t new_pos = pos + ", signed_to_string(*n as i64), ";"),
                    ),
                );

                if self.boundary_check {
                    let err_kind_str = if *n >= 0 {
                        "BFErrorOverflow"
                    } else {
                        "BFErrorUnderflow"
                    };

                    lines.push(line(8, "if (new_pos >= TAPE_LEN) {"));
                    lines.push(
                        CodeLine::new(
                            12,
                            surround("report->error_kind = ", String::from_str(err_kind_str), ";"),
                        ),
                    );
                    lines.push(line(12, "return BF_FALSE;"));
                    lines.push(line(8, "}"));
                }

                lines.push(line(8, "pos = new_pos;"));
                lines.push(line(4, "}"));
            },
            Inst::Input => {
                lines.push(line(4, "if (!calls.getchar(env, tape + pos)) {"));
                lines.push(line(8, "report->error_kind = BFErrorInStream;"));
                lines.push(line(8, "return BF_FALSE;"));
                lines.push(line(4, "}"));
            },
            Inst::Output => {
                lines.push(line(4, "if (!calls.putchar(env, tape[pos])) {"));
                lines.push(line(8, "report->error_kind = BFErrorOutStream;"));
                lines.push(line(8, "return BF_FALSE;"));
                lines.push(line(4, "}"));
            },
            Inst::Label(Label(id)) => {
                lines.push(CodeLine::new(0, surround("L", unsigned_to_string(*id as u64), ":")));
            },
            Inst::Jump(Label(id)) => {
                lines.push(
                    CodeLine::new(4, surround("goto L", unsigned_to_string(*id as u64), ";")),
                );
            },
            Inst::JumpIfZero(Label(id)) => {
                lines.push(
                    CodeLine::new(
                        4,
                        surround("if (0 == tape[pos]) goto L", unsigned_to_string(*id as u64), ";"),
                    ),
                );
            },
        }

        assert(lines_view(lines@) =~= translate_spec(*inst, self@));
        lines
    }
}

} // verus!
