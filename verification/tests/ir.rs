use bf_lab::frontend::ast::{ASTNode, ASTNodeKind};
use bf_lab::frontend::lexer::Lexer;
use bf_lab::frontend::parser::Parser;
use bf_lab::ir::inst::{Inst, Label};
use bf_lab::ir::ir::{IRError, IR};
use bf_lab::ir::lowering::Lowerer;
use bf_lab::ir::optimizers::{check_moves_fit, PeepholeOptimizer};

fn lowered(src: &str) -> Option<Vec<Inst>> {
    let ast = Parser::new(Lexer::new(src).collect()).parse();
    Lowerer::new().build(&ast)
}

#[test]
fn lowering_numbers_labels_in_order() {
    assert_eq!(
        lowered("[>[.]]").unwrap(),
        vec![
            Inst::Label(Label(0)),
            Inst::JumpIfZero(Label(1)),
            Inst::Move(1),
            Inst::Label(Label(2)),
            Inst::JumpIfZero(Label(3)),
            Inst::Output,
            Inst::Jump(Label(2)),
            Inst::Label(Label(3)),
            Inst::Jump(Label(0)),
            Inst::Label(Label(1)),
        ]
    );
    assert_eq!(Lowerer::default().build(&Parser::new(Lexer::new(",").collect()).parse()), Some(vec![Inst::Input]));
    assert_eq!(lowered("+]"), None);
}

#[test]
fn optimiser_merges_and_drops() {
    let prog = vec![
        Inst::Add(100),
        Inst::Add(100),
        Inst::Add(100),
        Inst::Move(3),
        Inst::Move(-3),
        Inst::Jump(Label(4)),
        Inst::Label(Label(4)),
        Inst::JumpIfZero(Label(5)),
        Inst::Label(Label(6)),
        Inst::Add(1),
        Inst::Add(-1),
        Inst::Output,
    ];
    let out = PeepholeOptimizer::new(&prog).optimize();
    assert_eq!(
        out,
        vec![
            Inst::Add(44),
            Inst::Label(Label(4)),
            Inst::JumpIfZero(Label(5)),
            Inst::Label(Label(6)),
            Inst::Output,
        ]
    );
}

#[test]
fn optimiser_wraps_additions_modulo_256() {
    let prog = vec![Inst::Add(1); 256];
    assert!(PeepholeOptimizer::new(&prog).optimize().is_empty());
    let prog = vec![Inst::Add(-1); 129];
    assert_eq!(PeepholeOptimizer::new(&prog).optimize(), vec![Inst::Add(127)]);
}

#[test]
fn ir_levels() {
    let ast = Parser::new(Lexer::new("++").collect()).parse();
    let ir = IR::new(ast, 0).ok().unwrap();
    assert_eq!(ir.instructions(), &[Inst::Add(1), Inst::Add(1)]);
    let ast = Parser::new(Lexer::new("++").collect()).parse();
    let ir = IR::new(ast, 1).ok().unwrap();
    assert_eq!(ir.instructions(), &[Inst::Add(2)]);
    let ast = Parser::new(Lexer::new("++").collect()).parse();
    assert!(matches!(IR::new(ast, 2), Err(IRError::UnsupportedOptLevel(2))));
    let ast = Parser::new(Lexer::new("[").collect()).parse();
    assert!(matches!(IR::new(ast, 2), Err(IRError::BadAST(_))));
}

/// Runs instructions on a tape of 256 cells starting in the middle, reading
/// from `input`; the output, or `None` where the program reads past the end
/// of its input or runs longer than `fuel` steps.
fn interpret(insts: &[Inst], input: &[u8], fuel: usize) -> Option<(Vec<u8>, Vec<u8>, i64)> {
    let mut tape = vec![0u8; 256];
    let mut pos: i64 = 128;
    let mut pc = 0usize;
    let mut input = input.iter();
    let mut output = Vec::new();
    let target = |l: Label| {
        insts
            .iter()
            .position(|i| *i == Inst::Label(l))
            .expect("label defined")
    };
    for _ in 0..fuel {
        if pc >= insts.len() {
            return Some((tape, output, pos));
        }
        match insts[pc] {
            Inst::Add(n) => tape[pos as usize] = tape[pos as usize].wrapping_add(n as u8),
            Inst::Move(n) => pos += n as i64,
            Inst::Input => tape[pos as usize] = *input.next()?,
            Inst::Output => output.push(tape[pos as usize]),
            Inst::Label(_) => {}
            Inst::Jump(l) => {
                pc = target(l);
                continue;
            }
            Inst::JumpIfZero(l) => {
                if tape[pos as usize] == 0 {
                    pc = target(l);
                    continue;
                }
            }
        }
        pc += 1;
    }
    None
}

fn both_levels(src: &str) -> (Vec<Inst>, Vec<Inst>) {
    let plain = IR::new(Parser::new(Lexer::new(src).collect()).parse(), 0).ok().unwrap();
    let optimised = IR::new(Parser::new(Lexer::new(src).collect()).parse(), 1).ok().unwrap();
    (plain.instructions().to_vec(), optimised.instructions().to_vec())
}

#[test]
fn optimisation_keeps_what_programs_do() {
    let hello = "++++++++[>++++[>++>+++>+++>+<<<<-]>+>+>->>+[<]<-]>>.>---.+++++++..+++.>>.<-.<.+++.------.--------.>>+.";
    let echo_upper = ",[>++++[<-------->-]<.,]";
    let cancel = "+-><[-]++++++++++++++++++++++++++++++++++++++++++++++++.";
    for (src, input) in [(hello, &b""[..]), (echo_upper, &b"abc"[..]), (cancel, &b""[..])] {
        let (plain, optimised) = both_levels(src);
        assert!(optimised.len() < plain.len());
        assert_eq!(interpret(&plain, input, 100_000), interpret(&optimised, input, 100_000), "{src}");
    }
    let (plain, optimised) = both_levels(hello);
    let (_, out, _) = interpret(&optimised, b"", 100_000).unwrap();
    assert_eq!(out, b"Hello World!");
    assert_eq!(interpret(&plain, b"", 100_000).unwrap().1, b"Hello World!");
}

struct TreeRun<'a> {
    tape: Vec<u8>,
    pos: i64,
    input: std::slice::Iter<'a, u8>,
    output: Vec<u8>,
}

/// Runs syntax tree nodes directly; `None` where a read finds no input.
fn run_tree(nodes: &[ASTNode], r: &mut TreeRun) -> Option<()> {
    for node in nodes {
        match &node.kind {
            ASTNodeKind::Add(n) => r.tape[r.pos as usize] = r.tape[r.pos as usize].wrapping_add(*n as u8),
            ASTNodeKind::Move(n) => r.pos += *n as i64,
            ASTNodeKind::Input => r.tape[r.pos as usize] = *r.input.next()?,
            ASTNodeKind::Output => r.output.push(r.tape[r.pos as usize]),
            ASTNodeKind::Loop { body } => {
                while r.tape[r.pos as usize] != 0 {
                    run_tree(body, r)?;
                }
            }
            ASTNodeKind::Invalid(_) => return None,
        }
    }
    Some(())
}

#[test]
fn lowering_keeps_what_programs_do() {
    let hello = "++++++++[>++++[>++>+++>+++>+<<<<-]>+>+>->>+[<]<-]>>.>---.+++++++..+++.>>.<-.<.+++.------.--------.>>+.";
    let echo = ",[.,]";
    for (src, input) in [(hello, &b""[..]), (echo, &b"xyz"[..]), (",,", &b"a"[..])] {
        let ast = Parser::new(Lexer::new(src).collect()).parse();
        let mut r = TreeRun { tape: vec![0u8; 256], pos: 128, input: input.iter(), output: Vec::new() };
        let finished = run_tree(&ast.nodes, &mut r).is_some();
        let plain = IR::new(ast, 0).ok().unwrap();
        match interpret(plain.instructions(), input, 100_000) {
            Some((tape, output, pos)) => {
                assert!(finished, "{src}");
                assert_eq!((tape, output, pos), (r.tape, r.output, r.pos), "{src}");
            }
            None => assert!(!finished, "{src}"),
        }
    }
}

#[test]
fn move_runs_that_overflow_an_i32_are_found() {
    assert!(!check_moves_fit(&[Inst::Move(i32::MAX), Inst::Move(1), Inst::Move(-1)]));
    assert!(check_moves_fit(&[Inst::Move(i32::MAX), Inst::Add(1), Inst::Move(1)]));
    assert!(check_moves_fit(&[Inst::Move(i32::MAX), Inst::Move(-1), Inst::Move(1)]));
    assert!(check_moves_fit(&[]));
    assert!(bf_lab::codegen::within_limits("+[>>-<<]", "f", bf_lab::codegen::CompileOptions::default()));
}
