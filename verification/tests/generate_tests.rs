use cfg_fuzzer::fuzz::{fuzz_grammar, FuzzError};
use cfg_fuzzer::cfg::{Cfg, CfgLetter, NameTable};
use cfg_fuzzer::draws::Draws;
use cfg_fuzzer::generate::{generate_code, GenerateError};
use cfg_fuzzer::parser::{parse, ParseError};

fn gen(src: &str, top: &str, terms: &[String]) -> Result<String, GenerateError> {
    let cfg = parse(src, "g", terms, top).unwrap();
    let mut draws = Draws::new(rand::rng());
    generate_code(cfg, &mut draws, &|| String::from("0.25"))
}

fn words_of(s: &str, prefix: &str, words: &[&str], sep: &str) -> bool {
    let rest = match s.strip_prefix(prefix) {
        Some(r) => r,
        None => return false,
    };
    fn split_all(rest: &str, words: &[&str], sep: &str, first: bool) -> bool {
        if rest.is_empty() {
            return !first;
        }
        let rest = if first {
            rest
        } else {
            match rest.strip_prefix(sep) {
                Some(r) => r,
                None => return false,
            }
        };
        words.iter().any(|w| match rest.strip_prefix(w) {
            Some(r) => split_all(r, words, sep, false),
            None => false,
        })
    }
    split_all(rest, words, sep, true)
}

#[test]
fn literal_is_written_after_a_space() {
    assert_eq!(gen("code: 'x' ;\n", "code", &[]).unwrap(), " x");
    assert_eq!(gen("code: 'a' \"b\" 3 ;\n", "code", &[]).unwrap(), " a b 3");
}

#[test]
fn rules_are_followed() {
    let src = "code: item ;\nitem: 'y' ;\n";
    assert_eq!(gen(src, "code", &[]).unwrap(), " y");
}

#[test]
fn or_takes_one_option() {
    for _ in 0..50 {
        let s = gen("code: | 'a' | 'b' 'c' ;\n", "code", &[]).unwrap();
        assert!(s == " a" || s == " b c", "got {:?}", s);
    }
}

#[test]
fn empty_options_write_nothing() {
    for _ in 0..20 {
        assert_eq!(gen("code: | | ;\n", "code", &[]).unwrap(), "");
        // a `|` under a postfix operator is an `Or` without options
        assert_eq!(gen("code: 'a' |* ;\n", "code", &[]).unwrap(), " a");
    }
}

#[test]
fn repetitions_write_the_letter_repeatedly() {
    for _ in 0..50 {
        let s = gen("code: 'a'* ;\n", "code", &[]).unwrap();
        assert!(s.len() % 2 == 0 && s.split(' ').skip(1).all(|w| w == "a"), "got {:?}", s);
        let s = gen("code: 'a'+ ;\n", "code", &[]).unwrap();
        assert!(s.len() >= 2 && s.len() % 2 == 0 && s.split(' ').skip(1).all(|w| w == "a"));
        let s = gen("code: 'a'? ;\n", "code", &[]).unwrap();
        assert!(s.is_empty() || s == " a", "got {:?}", s);
    }
}

#[test]
fn group_writes_its_letters() {
    let s = gen("code: ( 'a' 'b' ) ;\n", "code", &[]).unwrap();
    assert_eq!(s, " a b");
}

#[test]
fn range_writes_one_character_of_it() {
    for _ in 0..100 {
        let s = gen("code: [a-c x] ;\n", "code", &[]).unwrap();
        assert!(s == "a" || s == "b" || s == "c" || s == "x", "got {:?}", s);
        let s = gen("code: [0-9] ;\n", "code", &[]).unwrap();
        assert_eq!(s.len(), 1);
        assert!(s.chars().all(|c| c.is_ascii_digit()));
    }
}

#[test]
fn empty_range_writes_a_space() {
    assert_eq!(gen("code: [] ;\n", "code", &[]).unwrap(), " ");
}

#[test]
fn builtin_terms() {
    let idents = [
        "foo", "bar", "baz", "foobar", "x", "y", "a", "b", "node", "item", "elem", "i", "index",
        "str", "out", "buf", "ptr", "get", "set",
    ];
    let caps = ["FOO", "BAR", "BAZ", "FOOBAR", "VAR", "X", "Y", "A", "B"];
    let types = ["Foo", "Bar", "Baz", "Foobar", "Node", "List", "X", "Y", "A", "B"];
    for _ in 0..50 {
        let s = gen("code: IDENT ;\n", "code", &[]).unwrap();
        assert!(words_of(&s, " ", &idents, "_"), "got {:?}", s);
        let s = gen("code: CAPS_IDENT ;\n", "code", &[]).unwrap();
        assert!(words_of(&s, " ", &caps, "_"), "got {:?}", s);
        let s = gen("code: TYPE_IDENT ;\n", "code", &[]).unwrap();
        assert!(words_of(&s, " ", &types, ""), "got {:?}", s);
        let s = gen("code: INT ;\n", "code", &[]).unwrap();
        let n: u32 = s.strip_prefix(' ').unwrap().parse().unwrap();
        assert!(n <= 255);
    }
    assert_eq!(gen("code: NUMBER ;\n", "code", &[]).unwrap(), " 0.25");
    assert_eq!(gen("code: NEWLINE NL TAB ;\n", "code", &[]).unwrap(), " \n \n \t");
}

#[test]
fn unknown_term_is_an_error() {
    match gen("code: 'a' WHAT ;\n", "code", &[]) {
        Err(GenerateError::UnknownTerm(t)) => assert_eq!(t, "WHAT"),
        other => panic!("unexpected {:?}", other),
    }
}

#[test]
fn custom_term_writes_its_rule() {
    let terms = vec![String::from("PLUS:'+' ;")];
    assert_eq!(gen("code: 'a' PLUS 'b' ;\n", "code", &terms).unwrap(), " a + b");
}

#[test]
fn fuzz_grammar_parses_then_generates() {
    let mut rng = Draws::new(rand::rng());
    let n = || String::from("1");
    match fuzz_grammar("code: 'x' NUMBER ;\n", "g", &[], "code", &mut rng, &n) {
        Some(Ok(s)) => assert_eq!(s, " x 1"),
        other => panic!("unexpected {:?}", other),
    }
    match fuzz_grammar("code: 'x' ;\n", "g", &[], "nope", &mut rng, &n) {
        Some(Err(FuzzError::Parse(ParseError::NoTopLevelDeclaration(t)))) => assert_eq!(t, "nope"),
        other => panic!("unexpected {:?}", other),
    }
    match fuzz_grammar("code: UNDEFINED ;\n", "g", &[], "code", &mut rng, &n) {
        Some(Err(FuzzError::Generate(GenerateError::UnknownTerm(t)))) => assert_eq!(t, "UNDEFINED"),
        other => panic!("unexpected {:?}", other),
    }
    assert!(fuzz_grammar("code: 'x", "g", &[], "code", &mut rng, &n).is_none());
}

#[test]
fn letters_the_walk_never_reaches_may_point_anywhere() {
    let letters = vec![CfgLetter::StrLit(String::from("a")), CfgLetter::Optional(99)];
    let cfg = Cfg::new(letters, (0, 1), NameTable::new());
    let mut draws = Draws::new(rand::rng());
    match generate_code(cfg, &mut draws, &|| String::new()) {
        Ok(s) => assert_eq!(s, " a"),
        other => panic!("unexpected {:?}", other),
    }
}
