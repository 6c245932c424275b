use cfg_fuzzer::lexer::{is_ident, is_ident_start, Lexer, LexerCtx, Operator, Token};

fn ident(t: Option<Token>) -> String {
    match t {
        Some(Token::Ident(s)) => s,
        other => panic!("expected an identifier, got {:?}", other),
    }
}

fn op(t: Option<Token>) -> Operator {
    match t {
        Some(Token::Op(o)) => o,
        other => panic!("expected an operator, got {:?}", other),
    }
}

#[test]
fn lexes_a_rule_declaration() {
    let mut lex = Lexer::new("rule: | \"a\" 12 ;\n", "g.cfg");
    assert_eq!(ident(lex.next()), "rule");
    assert_eq!(op(lex.next()), Operator::RuleDeclare);
    assert_eq!(op(lex.next()), Operator::Pipe);
    match lex.next() {
        Some(Token::String(s)) => assert_eq!(s, "a"),
        other => panic!("expected a string, got {:?}", other),
    }
    match lex.next() {
        Some(Token::Num(n)) => assert_eq!(n, 12),
        other => panic!("expected a number, got {:?}", other),
    }
    assert_eq!(op(lex.next()), Operator::Eol);
    assert!(lex.next().is_none());
    assert_eq!(lex.ctx.line, 2);
    // at the end of the buffer the stream stays ended
    assert!(lex.next().is_none());
    assert!(lex.peek_next().is_none());
    assert_eq!(lex.ctx.line, 2);
}

#[test]
fn lexes_every_operator() {
    let mut lex = Lexer::new("*+?|()[]-:;", "ops");
    let expected = [
        Operator::Star,
        Operator::Plus,
        Operator::QuestionMark,
        Operator::Pipe,
        Operator::OpenParen,
        Operator::CloseParen,
        Operator::OpenRange,
        Operator::CloseRange,
        Operator::RangeTo,
        Operator::RuleDeclare,
        Operator::Eol,
    ];
    for e in expected {
        assert_eq!(op(lex.next()), e);
    }
    assert!(lex.next().is_none());
}

#[test]
fn unknown_character_gives_nothing() {
    let mut lex = Lexer::new("@ a ", "f");
    assert!(lex.next().is_none());
    assert!(lex.next().is_none());
}

#[test]
fn comment_is_skipped_to_its_newline() {
    let mut lex = Lexer::new("a # note\n b ", "f");
    assert_eq!(ident(lex.next()), "a");
    assert_eq!(ident(lex.next()), "b");
    assert_eq!(lex.ctx.line, 2);
    let mut lex = Lexer::new("# c\nfoo;", "f");
    assert_eq!(ident(lex.next()), "foo");
    let mut lex = Lexer::new("x # to the end", "f");
    assert_eq!(ident(lex.next()), "x");
    assert!(lex.next().is_none());
}

#[test]
fn counts_lines_and_columns() {
    let mut lex = Lexer::new("a\n\n  bc ", "f");
    assert_eq!(ident(lex.next()), "a");
    assert_eq!((lex.ctx.line, lex.ctx.column), (1, 2));
    assert_eq!(ident(lex.next()), "bc");
    assert_eq!((lex.ctx.line, lex.ctx.column), (3, 5));
    let mut lex = Lexer::new("'x\ny' z ", "f");
    assert!(matches!(lex.next(), Some(Token::String(_))));
    assert_eq!((lex.ctx.line, lex.ctx.column), (2, 3));
}

#[test]
fn peek_leaves_the_position() {
    let mut lex = Lexer::new("a\n\n b ", "f");
    assert_eq!(ident(lex.next()), "a");
    assert_eq!(ident(lex.peek_next()), "b");
    assert_eq!((lex.ctx.line, lex.ctx.column), (1, 2));
    assert_eq!(ident(lex.next()), "b");
    assert_eq!((lex.ctx.line, lex.ctx.column), (3, 3));
}

#[test]
fn numbers_lose_leading_zeros() {
    let mut lex = Lexer::new("007 ", "f");
    match lex.next() {
        Some(Token::Num(n)) => assert_eq!(n, 7),
        other => panic!("expected a number, got {:?}", other),
    }
}

#[test]
fn number_too_large_gives_nothing() {
    let mut lex = Lexer::new("99999999999999999999999999 ", "f");
    assert!(lex.next().is_none());
}

#[test]
fn quoted_string_keeps_escapes() {
    let mut lex = Lexer::new("'a\\'b' ", "f");
    match lex.next() {
        Some(Token::String(s)) => assert_eq!(s, "a\\'b"),
        other => panic!("expected a string, got {:?}", other),
    }
}

#[test]
fn peek_does_not_consume() {
    let mut lex = Lexer::new("x y ", "f");
    assert_eq!(ident(lex.peek_next()), "x");
    assert_eq!(ident(lex.peek_next()), "x");
    assert_eq!(ident(lex.next()), "x");
    assert_eq!(ident(lex.next()), "y");
}

#[test]
fn checked_read_refuses_running_past_the_end() {
    let mut lex = Lexer::new("abc", "f");
    assert!(lex.next_checked().is_err());
    let mut lex = Lexer::new("'open", "f");
    assert!(lex.peek_checked().is_err());
    let mut lex = Lexer::new("# no newline", "f");
    assert!(matches!(lex.next_checked(), Ok(None)));
    let mut lex = Lexer::new("abc ", "f");
    match lex.next_checked() {
        Ok(Some(Token::Ident(s))) => assert_eq!(s, "abc"),
        other => panic!("unexpected {:?}", other),
    }
}

#[test]
fn empty_source_gives_nothing() {
    let mut lex = Lexer::new("", "f");
    assert!(lex.next().is_none());
    let mut lex = Lexer::new("   \t ", "f");
    assert!(lex.next().is_none());
}

#[test]
fn context_text_is_file_line_column() {
    let lex = Lexer::new("a", "grammar.cfg");
    assert_eq!(lex.ctx().to_text(), "grammar.cfg:1:1");
    let ctx = LexerCtx { line: 12, column: 3, file: String::from("x") };
    assert_eq!(ctx.to_text(), "x:12:3");
    let copy = ctx.duplicate();
    assert_eq!(copy.line, 12);
    assert_eq!(copy.file, "x");
}

#[test]
fn identifier_characters() {
    assert!(is_ident_start('a'));
    assert!(is_ident_start('Z'));
    assert!(is_ident_start('_'));
    assert!(!is_ident_start('1'));
    assert!(!is_ident_start('é'));
    assert!(is_ident('1'));
    assert!(is_ident('b'));
    assert!(!is_ident('-'));
}
