use vstd::prelude::*;
use vstd::string::*;
use vstd::string::StringSliceAdditionalSpecFns;

use crate::codegen::c_func::{function_spec, CFunction};
use crate::codegen::decimal::{signed_decimal, signed_to_string};
use crate::codegen::inst_translator::lines_view;
use crate::codegen::text_laws::{
    check_line, count_line, count_moves, law_checks_follow_the_setting, law_function_frame,
};
use crate::frontend::ast::NodeModel;
use crate::frontend::lexer::{lemma_lex_len, lex, Lexer};
use crate::frontend::parser::{
    brackets_balanced, lemma_parse_items_loops, lemma_parse_items_valid, parse_tokens, Parser,
};
use crate::ir::ir::{IRError, IR};
use crate::ir::inst::Inst;
use crate::ir::lowering::{lemma_lower_nodes_moves, lemma_lower_nodes_valid, lower_program, Lowerer};
use crate::ir::optimizers::{check_moves_fit, lemma_light_moves_fit, moves_fit, optimize};

verus! {

/// How a source is compiled.
#[derive(Debug, Clone, Copy)]
pub struct CompileOptions {
    /// 0: no optimisation; 1: peephole optimisation.
    pub opt_level: i32,
    /// Check every move against the tape's ends.
    pub boundary_check: bool,
}

impl Default for CompileOptions {
    /// Optimisation on, boundary checks on.
    fn default() -> (r: Self)
        ensures
            r.opt_level == 1,
            r.boundary_check,
    {
        Self { opt_level: 1, boundary_check: true }
    }
}

/// Why a source was not compiled.
#[derive(Debug)]
pub enum CompileError {
    /// The name is no C identifier, or is a C keyword.
    InvalidFunctionName(String),
    IR(IRError),
}

/// The quoted, escaped form of a text, as `{:?}` writes it.
pub uninterp spec fn debug_text(s: Seq<char>) -> Seq<char>;

/// Calls `format!("{:?}", s)`: the text between double quotes, with the
/// characters that `str`'s `Debug` escapes escaped. The escaping rules
/// (which depend on Unicode tables) are not written out: the result is
/// named `debug_text` of the text.
#[verifier::external_body]
pub(crate) fn debug_str(s: &str) -> (r: String)
    ensures
        r@ == debug_text(s@),
{
    format!("{:?}", s)
}

impl CompileError {
    /// The message that describes the error.
    pub fn message(&self) -> (r: String)
        ensures
            match self {
                CompileError::InvalidFunctionName(name) => r@ == "invalid C function name: "@
                    + debug_text(name@),
                CompileError::IR(IRError::BadAST(_)) => r@ == "invalid Brainfuck syntax"@,
                CompileError::IR(IRError::UnsupportedOptLevel(level)) => r@
                    == "unsupported optimization level: "@ + signed_decimal(*level as int),
            },
    {
        match self {
            CompileError::InvalidFunctionName(name) => {
                let mut s = String::from_str("invalid C function name: ");
                s.append(debug_str(name.as_str()).as_str());
                s
            },
            CompileError::IR(IRError::BadAST(_)) => String::from_str("invalid Brainfuck syntax"),
            CompileError::IR(IRError::UnsupportedOptLevel(level)) => {
                let mut s = String::from_str("unsupported optimization level: ");
                s.append(signed_to_string(*level as i64).as_str());
                s
            },
        }
    }
}

pub open spec fn is_ascii_letter(c: char) -> bool {
    ('a' <= c && c <= 'z') || ('A' <= c && c <= 'Z')
}

pub open spec fn is_ascii_digit(c: char) -> bool {
    '0' <= c && c <= '9'
}

/// The keywords of C23, and the underscore spellings of earlier standards.
pub open spec fn is_c_keyword_text(s: Seq<char>) -> bool {
    ||| s == "alignas"@
    ||| s == "alignof"@
    ||| s == "auto"@
    ||| s == "bool"@
    ||| s == "break"@
    ||| s == "case"@
    ||| s == "char"@
    ||| s == "const"@
    ||| s == "constexpr"@
    ||| s == "continue"@
    ||| s == "default"@
    ||| s == "do"@
    ||| s == "double"@
    ||| s == "else"@
    ||| s == "enum"@
    ||| s == "extern"@
    ||| s == "false"@
    ||| s == "float"@
    ||| s == "for"@
    ||| s == "goto"@
    ||| s == "if"@
    ||| s == "inline"@
    ||| s == "int"@
    ||| s == "long"@
    ||| s == "nullptr"@
    ||| s == "register"@
    ||| s == "restrict"@
    ||| s == "return"@
    ||| s == "short"@
    ||| s == "signed"@
    ||| s == "sizeof"@
    ||| s == "static"@
    ||| s == "static_assert"@
    ||| s == "struct"@
    ||| s == "switch"@
    ||| s == "thread_local"@
    ||| s == "true"@
    ||| s == "typedef"@
    ||| s == "typeof"@
    ||| s == "typeof_unqual"@
    ||| s == "union"@
    ||| s == "unsigned"@
    ||| s == "void"@
    ||| s == "volatile"@
    ||| s == "while"@
    ||| s == "_Alignas"@
    ||| s == "_Alignof"@
    ||| s == "_Atomic"@
    ||| s == "_BitInt"@
    ||| s == "_Bool"@
    ||| s == "_Complex"@
    ||| s == "_Decimal128"@
    ||| s == "_Decimal32"@
    ||| s == "_Decimal64"@
    ||| s == "_Generic"@
    ||| s == "_Imaginary"@
    ||| s == "_Noreturn"@
    ||| s == "_Static_assert"@
    ||| s == "_Thread_local"@
}

/// A C identifier that is no keyword: a letter or `_`, then letters,
/// digits and `_`.
pub open spec fn valid_c_name(s: Seq<char>) -> bool {
    &&& s.len() > 0
    &&& (s[0] == '_' || is_ascii_letter(s[0]))
    &&& forall|i: int| 0 <= i < s.len() ==> #[trigger] s[i] == '_' || is_ascii_letter(s[i]) || is_ascii_digit(s[i])
    &&& !is_c_keyword_text(s)
}

/// The syntax tree of a source, given as its UTF-8 bytes.
pub open spec fn program_model(src: Seq<u8>) -> Seq<NodeModel> {
    parse_tokens(lex(src))
}

/// Level 1 sums each run of moves in an `i32`; this holds where every such
/// sum fits.
pub open spec fn compile_within_limits(src: Seq<u8>, name: Seq<char>, options: CompileOptions) -> bool {
    valid_c_name(name) && options.opt_level == 1 ==> (lower_program(program_model(src)) matches Some(
        insts,
    ) ==> moves_fit(insts))
}

/// What compiling gives where the name is valid: the lines of the function,
/// or the error.
pub open spec fn compiled(r: Result<CFunction, CompileError>, src: Seq<u8>, name: Seq<char>, options: CompileOptions) -> bool {
    match lower_program(program_model(src)) {
        None => r matches Err(CompileError::IR(IRError::BadAST(a))) && a@ == program_model(src),
        Some(insts) => if options.opt_level == 0 {
            r matches Ok(f) && f.name@ == name && lines_view(f.lines@) == function_spec(
                name,
                insts,
                options.boundary_check,
            )
        } else if options.opt_level == 1 {
            r matches Ok(f) && f.name@ == name && lines_view(f.lines@) == function_spec(
                name,
                optimize(insts),
                options.boundary_check,
            )
        } else {
            r matches Err(CompileError::IR(IRError::UnsupportedOptLevel(l))) && l == options.opt_level
        },
    }
}

/// A source of at most `i32::MAX` bytes meets `compile_within_limits`
/// whatever the name and options: each move takes a byte of its own, so
/// no run of moves sums past `i32::MAX` in size.
pub proof fn lemma_small_sources_within_limits(src: Seq<u8>, name: Seq<char>, options: CompileOptions)
    requires
        src.len() <= i32::MAX,
    ensures
        compile_within_limits(src, name, options),
{
    lemma_lex_len(src, 0);
    lemma_parse_items_loops(lex(src), 0);
    lemma_lower_nodes_moves(program_model(src), 0);
    if let Some(insts) = lower_program(program_model(src)) {
        lemma_light_moves_fit(insts);
    }
}

/// A source with a valid function name fails to compile as invalid
/// Brainfuck syntax exactly when its brackets do not balance: every `[`
/// needs a later `]` and every `]` an earlier `[`.
pub proof fn law_syntax_error_iff_unbalanced(src: Seq<u8>)
    ensures
        lower_program(program_model(src)) is None <==> !brackets_balanced(lex(src)),
{
    lemma_parse_items_valid(lex(src), 0);
    lemma_lower_nodes_valid(program_model(src), 0);
}

/// What compiling gives: an invalid name is reported first; with a valid
/// name, the result is as `compiled` says.
pub open spec fn compile_result(
    r: Result<CFunction, CompileError>,
    src: Seq<u8>,
    name: Seq<char>,
    options: CompileOptions,
) -> bool {
    &&& !valid_c_name(name) ==> (r matches Err(CompileError::InvalidFunctionName(n)) && n@ == name)
    &&& valid_c_name(name) ==> compiled(r, src, name, options)
}

/// Two results agree: the same function, line for line, or the same error
/// with the same payload.
pub open spec fn same_compile_result(
    a: Result<CFunction, CompileError>,
    b: Result<CFunction, CompileError>,
) -> bool {
    match (a, b) {
        (Ok(f), Ok(g)) => f.name@ == g.name@ && lines_view(f.lines@) == lines_view(g.lines@),
        (Err(CompileError::InvalidFunctionName(x)), Err(CompileError::InvalidFunctionName(y))) => x@
            == y@,
        (Err(CompileError::IR(IRError::BadAST(x))), Err(CompileError::IR(IRError::BadAST(y)))) => x@
            == y@,
        (
            Err(CompileError::IR(IRError::UnsupportedOptLevel(x))),
            Err(CompileError::IR(IRError::UnsupportedOptLevel(y))),
        ) => x == y,
        _ => false,
    }
}

/// Compiling is deterministic: two compilations of one source, name and
/// options give the same function line for line, or the same error.
pub proof fn law_compile_deterministic(
    src: Seq<u8>,
    name: Seq<char>,
    options: CompileOptions,
    r1: Result<CFunction, CompileError>,
    r2: Result<CFunction, CompileError>,
)
    requires
        compile_result(r1, src, name, options),
        compile_result(r2, src, name, options),
    ensures
        same_compile_result(r1, r2),
{
}

/// What a compiled function checks, at either level: it holds one check
/// per move of the instructions it was made from (the lowered program at
/// level 0, its optimised form at level 1) where checks are asked for, and
/// none where they are not; and it closes with `// Code ends.`, an empty
/// line, `return BF_TRUE;` and `}`.
pub proof fn law_compiled_moves_are_checked(
    r: Result<CFunction, CompileError>,
    src: Seq<u8>,
    name: Seq<char>,
    options: CompileOptions,
)
    requires
        compile_result(r, src, name, options),
    ensures
        r matches Ok(f) ==> (lower_program(program_model(src)) matches Some(low) && count_line(
            lines_view(f.lines@),
            check_line(),
        ) == (if options.boundary_check {
            count_moves(
                if options.opt_level == 0 {
                    low
                } else {
                    optimize(low)
                },
            )
        } else {
            0nat
        })),
        r matches Ok(f) ==> lines_view(f.lines@).subrange(
            lines_view(f.lines@).len() - 4,
            lines_view(f.lines@).len() as int,
        ) == seq![
            (0usize, "// Code ends."@),
            (0usize, Seq::<char>::empty()),
            (4usize, "return BF_TRUE;"@),
            (0usize, "}"@),
        ],
{
    if let Ok(f) = r {
        if let Some(low) = lower_program(program_model(src)) {
            let ir = if options.opt_level == 0 {
                low
            } else {
                optimize(low)
            };
            law_checks_follow_the_setting(name, ir, options.boundary_check);
            law_function_frame(name, ir, options.boundary_check, Inst::Input);
        }
    }
}

/// Every keyword is at least two characters long.
proof fn lemma_keywords_are_long(s: Seq<char>)
    ensures
        is_c_keyword_text(s) ==> s.len() >= 2,
{
    reveal_strlit("alignas");
    reveal_strlit("alignof");
    reveal_strlit("auto");
    reveal_strlit("bool");
    reveal_strlit("break");
    reveal_strlit("case");
    reveal_strlit("char");
    reveal_strlit("const");
    reveal_strlit("constexpr");
    reveal_strlit("continue");
    reveal_strlit("default");
    reveal_strlit("do");
    reveal_strlit("double");
    reveal_strlit("else");
    reveal_strlit("enum");
    reveal_strlit("extern");
    reveal_strlit("false");
    reveal_strlit("float");
    reveal_strlit("for");
    reveal_strlit("goto");
    reveal_strlit("if");
    reveal_strlit("inline");
    reveal_strlit("int");
    reveal_strlit("long");
    reveal_strlit("nullptr");
    reveal_strlit("register");
    reveal_strlit("restrict");
    reveal_strlit("return");
    reveal_strlit("short");
    reveal_strlit("signed");
    reveal_strlit("sizeof");
    reveal_strlit("static");
    reveal_strlit("static_assert");
    reveal_strlit("struct");
    reveal_strlit("switch");
    reveal_strlit("thread_local");
    reveal_strlit("true");
    reveal_strlit("typedef");
    reveal_strlit("typeof");
    reveal_strlit("typeof_unqual");
    reveal_strlit("union");
    reveal_strlit("unsigned");
    reveal_strlit("void");
    reveal_strlit("volatile");
    reveal_strlit("while");
    reveal_strlit("_Alignas");
    reveal_strlit("_Alignof");
    reveal_strlit("_Atomic");
    reveal_strlit("_BitInt");
    reveal_strlit("_Bool");
    reveal_strlit("_Complex");
    reveal_strlit("_Decimal128");
    reveal_strlit("_Decimal32");
    reveal_strlit("_Decimal64");
    reveal_strlit("_Generic");
    reveal_strlit("_Imaginary");
    reveal_strlit("_Noreturn");
    reveal_strlit("_Static_assert");
    reveal_strlit("_Thread_local");
}

/// Which names `compile_function` accepts: a name made of one letter of
/// either case or `_` is accepted, one digit is not; a letter of either
/// case, a digit or `_` may be added to an accepted name, as long as that
/// does not make a keyword; an accepted name is made of letters, digits
/// and `_` only and does not start with a digit; and no keyword is
/// accepted.
pub proof fn law_c_names(s: Seq<char>, c: char)
    ensures
        ('a' <= c <= 'z' || 'A' <= c <= 'Z' || c == '_') ==> valid_c_name(seq![c]),
        '0' <= c <= '9' ==> !valid_c_name(seq![c]),
        valid_c_name(s) && ('a' <= c <= 'z' || 'A' <= c <= 'Z' || '0' <= c <= '9' || c == '_')
            && !is_c_keyword_text(s.push(c)) ==> valid_c_name(s.push(c)),
        valid_c_name(s) ==> s.len() > 0 && !('0' <= s[0] <= '9') && forall|i: int|
            0 <= i < s.len() ==> ('a' <= #[trigger] s[i] <= 'z' || 'A' <= s[i] <= 'Z' || '0' <= s[i]
                <= '9' || s[i] == '_'),
        is_c_keyword_text(s) ==> !valid_c_name(s),
{
    if ('a' <= c <= 'z' || 'A' <= c <= 'Z' || c == '_') {
        lemma_keywords_are_long(seq![c]);
    }
    if valid_c_name(s) && ('a' <= c <= 'z' || 'A' <= c <= 'Z' || '0' <= c <= '9' || c == '_') {
        let t = s.push(c);
        assert forall|i: int| 0 <= i < t.len() implies #[trigger] t[i] == '_' || is_ascii_letter(t[i])
            || is_ascii_digit(t[i]) by {
            if i < s.len() {
                assert(t[i] == s[i]);
            }
        }
        assert(t[0] == s[0]);
    }
}

/// Compiles a Brainfuck source into a C function named `func_name`.
pub fn compile_function(src: &str, func_name: &str, options: CompileOptions) -> (r: Result<
    CFunction,
    CompileError,
>)
    requires
        compile_within_limits(src.spec_bytes(), func_name@, options),
    ensures
        compile_result(r, src.spec_bytes(), func_name@, options),
{
    if !is_valid_c_function_name(func_name) {
        return Err(CompileError::InvalidFunctionName(String::from_str(func_name)));
    }

    let lexer = Lexer::new(src);
    let tokens = lexer.collect();
    let ghost toks = lex(src.spec_bytes());
    proof {
        // The tokens fit in a vector, so the loops they hold take labels
        // that fit in a `usize`.
        assert(toks.len() == tokens.len());
    }

    let parser = Parser::new(tokens);
    let ast = parser.parse();
    proof {
        lemma_parse_items_loops(toks, 0);
    }

    let ir = match IR::new(ast, options.opt_level) {
        Ok(ir) => ir,
        Err(e) => return Err(CompileError::IR(e)),
    };

    Ok(CFunction::new(func_name, ir, options.boundary_check))
}

/// Whether compiling `src` as `func_name` with `options` is within the
/// library's limits, so that `compile_function` may be called.
pub fn within_limits(src: &str, func_name: &str, options: CompileOptions) -> (r: bool)
    ensures
        r == compile_within_limits(src.spec_bytes(), func_name@, options),
{
    if !is_valid_c_function_name(func_name) || options.opt_level != 1 {
        return true;
    }
    let lexer = Lexer::new(src);
    let tokens = lexer.collect();
    let ghost toks = lex(src.spec_bytes());
    proof {
        // The tokens fit in a vector, so the loops they hold take labels
        // that fit in a `usize`.
        assert(toks.len() == tokens.len());
    }
    let ast = Parser::new(tokens).parse();
    proof {
        lemma_parse_items_loops(toks, 0);
    }
    match Lowerer::new().build(&ast) {
        None => true,
        Some(insts) => {
            proof {
                assert(Seq::<Inst>::empty() + insts@ =~= insts@);
            }
            check_moves_fit(insts.as_slice())
        },
    }
}

/// Whether two texts are equal.
fn str_eq(a: &str, b: &str) -> (r: bool)
    ensures
        r == (a@ == b@),
{
    let n = a.unicode_len();
    if n != b.unicode_len() {
        return false;
    }
    let mut i: usize = 0;
    while i < n
        invariant
            n == a@.len(),
            n == b@.len(),
            i <= n,
            forall|j: int| 0 <= j < i ==> a@[j] == b@[j],
        decreases n - i,
    {
        if a.get_char(i) != b.get_char(i) {
            return false;
        }
        i += 1;
    }
    assert(a@ =~= b@);
    true
}

fn is_ascii_letter_char(c: char) -> (r: bool)
    ensures
        r == is_ascii_letter(c),
{
    ('a' <= c && c <= 'z') || ('A' <= c && c <= 'Z')
}

fn is_ascii_digit_char(c: char) -> (r: bool)
    ensures
        r == is_ascii_digit(c),
{
    '0' <= c && c <= '9'
}

fn is_valid_c_function_name(name: &str) -> (r: bool)
    ensures
        r == valid_c_name(name@),
{
    let n = name.unicode_len();
    if n == 0 {
        return false;
    }
    let first = name.get_char(0);
    if !(first == '_' || is_ascii_letter_char(first)) {
        return false;
    }
    let mut i: usize = 1;
    while i < n
        invariant
            n == name@.len(),
            1 <= i <= n,
            name@[0] == '_' || is_ascii_letter(name@[0]),
            forall|j: int| 0 <= j < i ==> #[trigger] name@[j] == '_' || is_ascii_letter(name@[j])
                || is_ascii_digit(name@[j]),
        decreases n - i,
    {
        let c = name.get_char(i);
        if !(c == '_' || is_ascii_letter_char(c) || is_ascii_digit_char(c)) {
            return false;
        }
        i += 1;
    }
    !is_c_keyword(name)
}

fn is_c_keyword(name: &str) -> (r: bool)
    ensures
        r == is_c_keyword_text(name@),
{
    str_eq(name, "alignas")
        || str_eq(name, "alignof")
        || str_eq(name, "auto")
        || str_eq(name, "bool")
        || str_eq(name, "break")
        || str_eq(name, "case")
        || str_eq(name, "char")
        || str_eq(name, "const")
        || str_eq(name, "constexpr")
        || str_eq(name, "continue")
        || str_eq(name, "default")
        || str_eq(name, "do")
        || str_eq(name, "double")
        || str_eq(name, "else")
        || str_eq(name, "enum")
        || str_eq(name, "extern")
        || str_eq(name, "false")
        || str_eq(name, "float")
        || str_eq(name, "for")
        || str_eq(name, "goto")
        || str_eq(name, "if")
        || str_eq(name, "inline")
        || str_eq(name, "int")
        || str_eq(name, "long")
        || str_eq(name, "nullptr")
        || str_eq(name, "register")
        || str_eq(name, "restrict")
        || str_eq(name, "return")
        || str_eq(name, "short")
        || str_eq(name, "signed")
        || str_eq(name, "sizeof")
        || str_eq(name, "static")
        || str_eq(name, "static_assert")
        || str_eq(name, "struct")
        || str_eq(name, "switch")
        || str_eq(name, "thread_local")
        || str_eq(name, "true")
        || str_eq(name, "typedef")
        || str_eq(name, "typeof")
        || str_eq(name, "typeof_unqual")
        || str_eq(name, "union")
        || str_eq(name, "unsigned")
        || str_eq(name, "void")
        || str_eq(name, "volatile")
        || str_eq(name, "while")
        || str_eq(name, "_Alignas")
        || str_eq(name, "_Alignof")
        || str_eq(name, "_Atomic")
        || str_eq(name, "_BitInt")
        || str_eq(name, "_Bool")
        || str_eq(name, "_Complex")
        || str_eq(name, "_Decimal128")
        || str_eq(name, "_Decimal32")
        || str_eq(name, "_Decimal64")
        || str_eq(name, "_Generic")
        || str_eq(name, "_Imaginary")
        || str_eq(name, "_Noreturn")
        || str_eq(name, "_Static_assert")
        || str_eq(name, "_Thread_local")
}

} // verus!
