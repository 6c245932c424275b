use cfg_fuzzer::cfg::{CfgLetter, CfgRange, NameTable};
use cfg_fuzzer::lexer::{Operator, Token};
use cfg_fuzzer::parser::{is_uppercase, parse, parse_checked, MaybeUnknown, ParseError};

fn no_terms() -> Vec<String> {
    Vec::new()
}

#[test]
fn parses_a_single_literal_rule() {
    let cfg = parse("code: | \"x\" ;\n", "g", &no_terms(), "code").unwrap();
    assert_eq!(cfg.len(), 1);
    assert_eq!(cfg.top_rule(), (0, 1));
    match cfg.get_letter(0) {
        CfgLetter::StrLit(s) => assert_eq!(s, "x"),
        other => panic!("unexpected {:?}", other),
    }
    assert_eq!(cfg.rule_slice(&(0, 1)).len(), 1);
}

#[test]
fn number_literal_becomes_its_decimal_text() {
    let cfg = parse("code: 0042 ;\n", "g", &no_terms(), "code").unwrap();
    match cfg.get_letter(0) {
        CfgLetter::StrLit(s) => assert_eq!(s, "42"),
        other => panic!("unexpected {:?}", other),
    }
}

#[test]
fn options_become_one_or_letter_after_their_letters() {
    let cfg = parse("code: | 'a' | 'b' 'c' ;\n", "g", &no_terms(), "code").unwrap();
    // letters: a, b, c, then the Or over (0,1) and (1,3)
    assert_eq!(cfg.len(), 4);
    assert_eq!(cfg.top_rule(), (3, 4));
    match cfg.get_letter(3) {
        CfgLetter::Or(items) => assert_eq!(items, &vec![(0, 1), (1, 3)]),
        other => panic!("unexpected {:?}", other),
    }
}

#[test]
fn leading_pipe_is_skipped() {
    let cfg = parse("code: | 'a' ;\n", "g", &no_terms(), "code").unwrap();
    assert_eq!(cfg.len(), 1);
    let cfg = parse("code: 'a' ;\n", "g", &no_terms(), "code").unwrap();
    assert_eq!(cfg.len(), 1);
}

#[test]
fn postfix_operators_wrap_the_letter() {
    let cfg = parse("code: 'a'* 'b'+ 'c'? ;\n", "g", &no_terms(), "code").unwrap();
    // the wrapped letters are stored before the rule, which holds the wrappers alone
    assert_eq!(cfg.len(), 6);
    assert_eq!(cfg.top_rule(), (3, 6));
    assert!(matches!(cfg.get_letter(3), CfgLetter::Many(0)));
    assert!(matches!(cfg.get_letter(4), CfgLetter::OneOrMore(1)));
    assert!(matches!(cfg.get_letter(5), CfgLetter::Optional(2)));
    assert!(matches!(cfg.get_letter(0), CfgLetter::StrLit(_)));
    let cfg = parse("s: 'a'?;\n", "f", &no_terms(), "s").unwrap();
    let top = cfg.top_rule();
    assert_eq!(cfg.rule_slice(&top).len(), 1);
    assert!(matches!(cfg.rule_slice(&top)[0], CfgLetter::Optional(0)));
}

#[test]
fn group_refers_to_its_letters() {
    let cfg = parse("code: ( 'a' 'b' ) ;\n", "g", &no_terms(), "code").unwrap();
    assert_eq!(cfg.len(), 3);
    assert!(matches!(cfg.get_letter(2), CfgLetter::Group((0, 2))));
    assert_eq!(cfg.top_rule(), (2, 3));
    let cfg = parse("s: ('a'?) ;\n", "g", &no_terms(), "s").unwrap();
    assert!(matches!(cfg.get_letter(0), CfgLetter::StrLit(_)));
    assert!(matches!(cfg.get_letter(1), CfgLetter::Optional(0)));
    assert!(matches!(cfg.get_letter(2), CfgLetter::Group((1, 2))));
}

#[test]
fn rule_references_resolve_to_rules() {
    let src = "code: item item ;\nitem: | 'x' ;\n";
    let cfg = parse(src, "g", &no_terms(), "code").unwrap();
    assert_eq!(cfg.len(), 3);
    assert!(matches!(cfg.get_letter(0), CfgLetter::Rule((2, 3))));
    assert!(matches!(cfg.get_letter(1), CfgLetter::Rule((2, 3))));
}

#[test]
fn later_definition_replaces_earlier() {
    let src = "code: item ;\nitem: 'x' ;\nitem: 'y' ;\n";
    let cfg = parse(src, "g", &no_terms(), "code").unwrap();
    assert!(matches!(cfg.get_letter(0), CfgLetter::Rule((2, 3))));
}

#[test]
fn upper_case_names_are_terms() {
    let cfg = parse("code: IDENT ;\n", "g", &no_terms(), "code").unwrap();
    match cfg.get_letter(0) {
        CfgLetter::Term(t) => assert_eq!(t, "IDENT"),
        other => panic!("unexpected {:?}", other),
    }
}

#[test]
fn ranges_are_read() {
    let cfg = parse("code: [a-c x 0-9] ;\n", "g", &no_terms(), "code").unwrap();
    match cfg.get_letter(0) {
        CfgLetter::Range(rs) => {
            assert_eq!(rs.len(), 3);
            assert_eq!(rs[0], CfgRange::new('a', 'c'));
            assert_eq!(rs[1], CfgRange::new_single('x'));
            assert_eq!(rs[2], CfgRange::new('0', '9'));
        }
        other => panic!("unexpected {:?}", other),
    }
}

#[test]
fn custom_term_is_recorded() {
    let terms = vec![String::from("OP:'+' ;")];
    let cfg = parse("code: OP ;\n", "g", &terms, "code").unwrap();
    // the term names the rule of its letters
    assert_eq!(cfg.len(), 2);
    assert_eq!(cfg.term_rule("OP"), Some((1, 2)));
    match cfg.get_letter(1) {
        CfgLetter::StrLit(s) => assert_eq!(s, "+"),
        other => panic!("unexpected {:?}", other),
    }
    let terms = vec![String::from("X:'a'")];
    let cfg = parse("s: X;\n", "f", &terms, "s").unwrap();
    let r = cfg.term_rule("X").unwrap();
    assert_eq!(cfg.rule_slice(&r).len(), 1);
    assert!(matches!(&cfg.rule_slice(&r)[0], CfgLetter::StrLit(a) if a == "a"));
    assert_eq!(cfg.term_rule("NOPE"), None);
}

#[test]
fn error_no_top_level_declaration() {
    match parse("a: 'x' ;\n", "g", &no_terms(), "b") {
        Err(ParseError::NoTopLevelDeclaration(n)) => assert_eq!(n, "b"),
        other => panic!("unexpected {:?}", other),
    }
}

#[test]
fn error_undefined_rule() {
    match parse("a: | b ;\n", "g", &no_terms(), "a") {
        Err(ParseError::UndefinedRule(n)) => assert_eq!(n, "b"),
        other => panic!("unexpected {:?}", other),
    }
}

#[test]
fn error_unexpected_token() {
    match parse("'x' ;\n", "g", &no_terms(), "a") {
        Err(ParseError::UnexpectedToken(ctx, what, Token::String(s))) => {
            assert_eq!(what, "identifier");
            assert_eq!(s, "x");
            assert_eq!(ctx.to_text(), "g:1:4");
        }
        other => panic!("unexpected {:?}", other),
    }
    match parse("a b ;\n", "g", &no_terms(), "a") {
        Err(ParseError::UnexpectedToken(_, what, Token::Ident(s))) => {
            assert_eq!(what, "':'");
            assert_eq!(s, "b");
        }
        other => panic!("unexpected {:?}", other),
    }
}

#[test]
fn error_unexpected_op() {
    match parse("a: ) ;\n", "g", &no_terms(), "a") {
        Err(ParseError::UnexpectedOp(_, o)) => assert_eq!(o, Operator::CloseParen),
        other => panic!("unexpected {:?}", other),
    }
}

#[test]
fn error_unexpected_range() {
    match parse("a: [-b] ;\n", "g", &no_terms(), "a") {
        Err(ParseError::UnexpectedRange(_)) => {}
        other => panic!("unexpected {:?}", other),
    }
}

#[test]
fn error_invalid_range() {
    match parse("a: [z-a] ;\n", "g", &no_terms(), "a") {
        Err(ParseError::InvalidRange(_, r)) => {
            assert_eq!(r, CfgRange::new('z', 'a'));
            assert_eq!(r.to_text(), "z-a");
        }
        other => panic!("unexpected {:?}", other),
    }
    match parse("a: [a-5] ;\n", "g", &no_terms(), "a") {
        Err(ParseError::InvalidRange(_, r)) => assert_eq!(r, CfgRange::new('a', '5')),
        other => panic!("unexpected {:?}", other),
    }
    match parse("a: ['!' b] ;\n", "g", &no_terms(), "a") {
        Err(ParseError::InvalidRange(_, r)) => assert_eq!(r, CfgRange::new_single('!')),
        other => panic!("unexpected {:?}", other),
    }
}

#[test]
fn error_invalid_term() {
    let terms = vec![String::from("NOCOLON")];
    match parse("a: 'x' ;\n", "g", &terms, "a") {
        Err(ParseError::InvalidTerm(t)) => assert_eq!(t, "NOCOLON"),
        other => panic!("unexpected {:?}", other),
    }
}

#[test]
fn error_term_recurse() {
    let terms = vec![String::from("T:foo ;")];
    match parse("a: 'x' ;\n", "g", &terms, "a") {
        Err(ParseError::TermRecurse(t)) => assert_eq!(t, "T"),
        other => panic!("unexpected {:?}", other),
    }
}

#[test]
fn error_term_dupe() {
    let terms = vec![String::from("T:'x' ;"), String::from("T:'y' ;")];
    match parse("a: 'x' ;\n", "g", &terms, "a") {
        Err(ParseError::TermDupe(t)) => assert_eq!(t, "T"),
        other => panic!("unexpected {:?}", other),
    }
}

#[test]
fn error_got_eof() {
    match parse("a ", "g", &no_terms(), "a") {
        Err(ParseError::GotEof(ctx)) => assert_eq!(ctx.file, "g"),
        other => panic!("unexpected {:?}", other),
    }
    match parse("a: ( 'x' ", "g", &no_terms(), "a") {
        Err(ParseError::GotEof(_)) => {}
        other => panic!("unexpected {:?}", other),
    }
}

#[test]
fn checked_parse_reports_overrun() {
    assert!(parse_checked("a: 'x' ;\nb", "g", &no_terms(), "a").is_none());
    assert!(parse_checked("a: 'x", "g", &no_terms(), "a").is_none());
    assert!(parse_checked("a: 'x' ;\n", "g", &no_terms(), "a").unwrap().is_ok());
}

#[test]
fn upper_case_test() {
    assert!(is_uppercase("IDENT"));
    assert!(is_uppercase("A_1"));
    assert!(is_uppercase(""));
    assert!(!is_uppercase("Ident"));
    assert!(!is_uppercase("ÉtÉ"));
}

#[test]
fn maybe_unknown_into_letter() {
    let mut map = NameTable::new();
    map.insert(String::from("r"), (1, 4));
    match MaybeUnknown::Unknown(String::from("r")).into_letter(&map) {
        Ok(CfgLetter::Rule(r)) => assert_eq!(r, (1, 4)),
        other => panic!("unexpected {:?}", other),
    }
    match MaybeUnknown::Unknown(String::from("s")).into_letter(&map) {
        Err(ParseError::UndefinedRule(n)) => assert_eq!(n, "s"),
        other => panic!("unexpected {:?}", other),
    }
    match MaybeUnknown::Known(CfgLetter::Many(3)).into_letter(&map) {
        Ok(CfgLetter::Many(3)) => {}
        other => panic!("unexpected {:?}", other),
    }
}

#[test]
fn name_table_reads_back_the_last_write() {
    let mut t = NameTable::new();
    assert!(!t.contains_key("a"));
    t.insert(String::from("a"), (0, 1));
    t.insert(String::from("b"), (1, 2));
    t.insert(String::from("a"), (5, 6));
    assert_eq!(t.get("a"), Some((5, 6)));
    assert_eq!(t.get("b"), Some((1, 2)));
    assert_eq!(t.get("c"), None);
    assert!(t.contains_key("b"));
}

#[test]
fn leading_comment_is_ignored() {
    let cfg = parse("# c\ns: 'a';\n", "f", &no_terms(), "s").unwrap();
    let top = cfg.top_rule();
    assert_eq!(cfg.rule_slice(&top).len(), 1);
    assert!(matches!(&cfg.rule_slice(&top)[0], CfgLetter::StrLit(a) if a == "a"));
}

#[test]
fn errors_report_the_line_of_the_token() {
    match parse("s:\n| 'a'\n;\n'b'", "f", &no_terms(), "s") {
        Err(ParseError::UnexpectedToken(ctx, e, Token::String(b))) => {
            assert_eq!(e, "identifier");
            assert_eq!(b, "b");
            assert_eq!(ctx.file, "f");
            assert_eq!(ctx.line, 4);
        }
        other => panic!("unexpected {:?}", other),
    }
}
