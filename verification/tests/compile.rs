use bf_lab::codegen::compile::{compile_function, CompileError, CompileOptions};
use bf_lab::codegen::CFunction;
use bf_lab::ir::ir::IRError;

fn render(function: &CFunction) -> Vec<String> {
    function.lines.iter().map(|line| line.as_string()).collect()
}

#[test]
fn compiles_a_function() {
    let function = compile_function("+.", "bf_main", CompileOptions::default()).unwrap();

    assert_eq!(function.name(), "bf_main");
}

#[test]
fn rejects_invalid_c_function_names() {
    for name in ["", "2bad", "has-dash", "while"] {
        assert!(matches!(
            compile_function("", name, CompileOptions::default()),
            Err(CompileError::InvalidFunctionName(_))
        ));
    }
}

#[test]
fn default_options_optimise_and_check_bounds() {
    let options = CompileOptions::default();
    assert_eq!(options.opt_level, 1);
    assert!(options.boundary_check);
}

#[test]
fn accepts_identifiers_that_are_no_keyword() {
    for name in ["_", "a", "_x9", "While", "bf_entry", "whilex"] {
        assert!(compile_function("", name, CompileOptions::default()).is_ok(), "{name}");
    }
    for name in ["_Bool", "int", "static_assert", "a b", "é"] {
        assert!(compile_function("", name, CompileOptions::default()).is_err(), "{name}");
    }
}

#[test]
fn unbalanced_brackets_are_a_syntax_error() {
    for src in ["]", "[", "[[]", "[]]", "+]["] {
        match compile_function(src, "f", CompileOptions::default()) {
            Err(CompileError::IR(IRError::BadAST(_))) => {}
            other => panic!("{src}: {:?}", other.map(|f| f.name)),
        }
    }
    for src in ["[]", "[[-]>]", "a[b]c", "+[-[+]]."] {
        assert!(compile_function(src, "f", CompileOptions::default()).is_ok(), "{src}");
    }
}

#[test]
fn bad_syntax_is_reported_before_the_level() {
    let options = CompileOptions { opt_level: 7, boundary_check: true };
    assert!(matches!(
        compile_function("[", "f", options),
        Err(CompileError::IR(IRError::BadAST(_)))
    ));
    assert!(matches!(
        compile_function("[]", "f", options),
        Err(CompileError::IR(IRError::UnsupportedOptLevel(7)))
    ));
}

#[test]
fn error_messages() {
    let e = compile_function("", "has-dash", CompileOptions::default()).unwrap_err();
    assert_eq!(e.message(), "invalid C function name: \"has-dash\"");
    let e = compile_function("", "a\"b", CompileOptions::default()).unwrap_err();
    assert_eq!(e.message(), "invalid C function name: \"a\\\"b\"");
    let e = compile_function("]", "f", CompileOptions::default()).unwrap_err();
    assert_eq!(e.message(), "invalid Brainfuck syntax");
    let options = CompileOptions { opt_level: -3, boundary_check: false };
    let e = compile_function("", "f", options).unwrap_err();
    assert_eq!(e.message(), "unsupported optimization level: -3");
}

#[test]
fn whole_function_for_add_and_output() {
    let function = compile_function("+.", "bf_main", CompileOptions::default()).unwrap();
    let expected = vec![
        "bf_bool_t bf_main(BFCalls calls, BFRuntimeEnv* env, BFRuntimeReport* report) {",
        "// Preparation starts.",
        "    *report = (BFRuntimeReport){",
        "        .file_name = __FILE__,",
        "        .func_name = __func__,",
        "        .error_kind = NoBFError,",
        "    };",
        "",
        "    const bf_size_t TAPE_LEN = calls.tape_len(env);",
        "    bf_byte_t* tape = calls.get_tape(env);",
        "    bf_off_t pos = 0;",
        "// Preparation ends.",
        "",
        "// Code starts.",
        "    tape[pos] += 1;",
        "    if (!calls.putchar(env, tape[pos])) {",
        "        report->error_kind = BFErrorOutStream;",
        "        return BF_FALSE;",
        "    }",
        "// Code ends.",
        "",
        "    return BF_TRUE;",
        "}",
    ];
    assert_eq!(render(&function), expected);
}

#[test]
fn loops_become_labels_and_jumps() {
    let options = CompileOptions { opt_level: 0, boundary_check: false };
    let function = compile_function("[-]", "clear", options).unwrap();
    let body: Vec<String> = render(&function)[14..19].to_vec();
    assert_eq!(
        body,
        vec![
            "L0:",
            "    if (0 == tape[pos]) goto L1;",
            "    tape[pos] += -1;",
            "    goto L0;",
            "L1:",
        ]
    );
}

#[test]
fn optimisation_merges_runs() {
    let function = compile_function("+++-- >>>< ++++", "f", CompileOptions::default()).unwrap();
    let lines = render(&function);
    assert_eq!(lines[14], "    tape[pos] += 1;");
    assert_eq!(lines[16], "        bf_off_t new_pos = pos + 2;");
    assert_eq!(lines[17], "        if (new_pos >= TAPE_LEN) {");
    assert_eq!(lines[18], "            report->error_kind = BFErrorOverflow;");
    assert_eq!(lines[23], "    tape[pos] += 4;");
    let plain = compile_function("+++", "f", CompileOptions { opt_level: 0, boundary_check: true }).unwrap();
    assert_eq!(render(&plain).len(), 14 + 3 + 4);
}

#[test]
fn functions_are_equal_by_name() {
    let a = compile_function("+", "f", CompileOptions::default()).unwrap();
    let b = compile_function("-.", "f", CompileOptions::default()).unwrap();
    let c = compile_function("+", "g", CompileOptions::default()).unwrap();
    assert!(a == b);
    assert!(a != c);
}
