use bf_lab::frontend::ast::{ASTNodeKind, InvalidNode};
use bf_lab::frontend::lexer::{Lexer, TokenKind};
use bf_lab::frontend::parser::Parser;

#[test]
fn test_correct() {
    let code = "+++----[-]";

    let l = Lexer::new(code);
    let tokens: Vec<_> = l.collect();

    let p = Parser::new(tokens);

    let ast = p.parse();

    println!("{:?}", ast)
}

#[test]
fn lexer_skips_comments_and_keeps_byte_offsets() {
    let tokens = Lexer::new("a+ é[\n]").collect();
    let seen: Vec<(TokenKind, usize)> = tokens.iter().map(|t| (t.kind(), t.loc())).collect();
    assert_eq!(
        seen,
        vec![(TokenKind::Add, 1), (TokenKind::LoopStart, 5), (TokenKind::LoopEnd, 7)]
    );
}

#[test]
fn lexer_next_ends_with_none() {
    let mut lexer = Lexer::new("<x>");
    assert_eq!(lexer.next().map(|t| (t.kind(), t.loc())), Some((TokenKind::MoveLeft, 0)));
    assert_eq!(lexer.next().map(|t| (t.kind(), t.loc())), Some((TokenKind::MoveRight, 2)));
    assert!(lexer.next().is_none());
    assert!(lexer.next().is_none());
}

#[test]
fn parser_builds_loops_and_spans() {
    let ast = Parser::new(Lexer::new("+[-,]").collect()).parse();
    let nodes = ast.nodes();
    assert_eq!(nodes.len(), 2);
    assert!(matches!(nodes[0].kind(), ASTNodeKind::Add(1)));
    assert_eq!((nodes[0].span().start(), nodes[0].span().end()), (0, 1));
    match nodes[1].kind() {
        ASTNodeKind::Loop { body } => {
            assert_eq!(body.len(), 2);
            assert!(matches!(body[0].kind(), ASTNodeKind::Add(-1)));
            assert!(matches!(body[1].kind(), ASTNodeKind::Input));
        }
        other => panic!("{:?}", other),
    }
    assert_eq!((nodes[1].span().start(), nodes[1].span().end()), (1, 5));
}

#[test]
fn parser_marks_unmatched_brackets() {
    let ast = Parser::new(Lexer::new("]<[>").collect()).parse();
    let nodes = ast.nodes();
    assert_eq!(nodes.len(), 3);
    assert!(matches!(nodes[0].kind(), ASTNodeKind::Invalid(InvalidNode::OpenLoopEnd)));
    assert!(matches!(nodes[1].kind(), ASTNodeKind::Move(-1)));
    assert!(matches!(nodes[2].kind(), ASTNodeKind::Invalid(InvalidNode::OpenLoopStart)));
    assert_eq!((nodes[2].span().start(), nodes[2].span().end()), (2, 4));
}
