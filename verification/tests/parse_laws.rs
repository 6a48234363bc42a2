use bf_lab::codegen::{compile_function, CompileOptions};
use bf_lab::frontend::ast::{ASTNode, ASTNodeKind};
use bf_lab::frontend::lexer::{Lexer, TokenKind};
use bf_lab::frontend::parser::Parser;
use bf_lab::ir::inst::{Inst, Label};
use bf_lab::ir::optimizers::PeepholeOptimizer;

fn text(nodes: &[ASTNode]) -> String {
    let mut out = String::new();
    for node in nodes {
        match &node.kind {
            ASTNodeKind::Add(n) if *n > 0 => out.push('+'),
            ASTNodeKind::Add(_) => out.push('-'),
            ASTNodeKind::Move(n) if *n > 0 => out.push('>'),
            ASTNodeKind::Move(_) => out.push('<'),
            ASTNodeKind::Input => out.push(','),
            ASTNodeKind::Output => out.push('.'),
            ASTNodeKind::Loop { body } => {
                out.push('[');
                out.push_str(&text(body));
                out.push(']');
            }
            ASTNodeKind::Invalid(_) => panic!("invalid node"),
        }
    }
    out
}

fn check_spans(nodes: &[ASTNode], lo: usize, hi: usize) {
    let mut prev_end = lo;
    for node in nodes {
        let (start, end) = (node.span.start, node.span.end);
        assert!(prev_end <= start && start < end && end <= hi);
        match &node.kind {
            ASTNodeKind::Loop { body } => check_spans(body, start + 1, end - 1),
            _ => assert_eq!(end, start + 1),
        }
        prev_end = end;
    }
}

#[test]
fn parsing_balanced_tokens_gives_back_the_commands() {
    let src = "a+b[-> c[<.,]] x.";
    let ast = Parser::new(Lexer::new(src).collect()).parse();
    let commands: String = src.chars().filter(|c| "+-<>[],.".contains(*c)).collect();
    assert_eq!(text(&ast.nodes), commands);
}

#[test]
fn spans_are_ordered_and_nested() {
    let src = "++ [>[-] <] . , [+]";
    let ast = Parser::new(Lexer::new(src).collect()).parse();
    check_spans(&ast.nodes, 0, src.len());
    assert_eq!((ast.nodes[2].span.start, ast.nodes[2].span.end), (3, 11));
}

#[test]
fn lexing_gives_the_byte_offsets_of_the_command_characters() {
    let src = "é+ü[x]🙂.";
    let mut lexer = Lexer::new(src);
    let mut tokens = Vec::new();
    while let Some(t) = lexer.next() {
        tokens.push((t.kind(), t.loc()));
    }
    let expected: Vec<(TokenKind, usize)> = src
        .char_indices()
        .filter_map(|(i, c)| match c {
            '+' => Some((TokenKind::Add, i)),
            '[' => Some((TokenKind::LoopStart, i)),
            ']' => Some((TokenKind::LoopEnd, i)),
            '.' => Some((TokenKind::Output, i)),
            _ => None,
        })
        .collect();
    assert_eq!(tokens, expected);
    assert_eq!(tokens[0], (TokenKind::Add, 2));
    assert!(lexer.next().is_none());
}

#[test]
fn repeated_labels_that_no_jump_uses_do_not_matter() {
    let prog = vec![
        Inst::Label(Label(9)),
        Inst::Add(1),
        Inst::Add(2),
        Inst::Label(Label(9)),
        Inst::Jump(Label(1)),
        Inst::Label(Label(1)),
        Inst::Output,
    ];
    let out = PeepholeOptimizer::new(&prog).optimize();
    assert_eq!(
        out,
        vec![
            Inst::Label(Label(9)),
            Inst::Add(3),
            Inst::Label(Label(9)),
            Inst::Label(Label(1)),
            Inst::Output,
        ]
    );
}

#[test]
fn compiling_twice_gives_the_same_function() {
    let src = "++[>+<-]>.";
    let a = compile_function(src, "f", CompileOptions::default()).ok().unwrap();
    let b = compile_function(src, "f", CompileOptions::default()).ok().unwrap();
    let lines = |f: &bf_lab::codegen::CFunction| f.lines.iter().map(|l| l.as_string()).collect::<Vec<_>>();
    assert_eq!(a.name, b.name);
    assert_eq!(lines(&a), lines(&b));
}
