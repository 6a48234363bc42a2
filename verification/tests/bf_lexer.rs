use bf_lab::bf_lexer::lexer::Lexer;
use bf_lab::bf_lexer::token::TokenKind;

#[test]
fn byte_lexer_reads_one_command_per_byte() {
    let mut lexer = Lexer::new(b"+]");
    let t = lexer.next().unwrap();
    assert_eq!((t.kind(), t.loc()), (TokenKind::Add, 0));
    let t = lexer.next().unwrap();
    assert_eq!((t.kind(), t.loc()), (TokenKind::LoopEnd, 1));
    assert!(lexer.next().is_none());
}
