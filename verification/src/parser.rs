//! The parser of the grammar notation.
//!
//! Each function of the parser is proved to do what the matching spec
//! function of [`crate::parse_spec`] says, and to keep the letters it builds
//! well formed: every letter refers only to letters stored before it.
use vstd::prelude::*;

use crate::cfg::{
    lemma_or_within, letter_below, letter_within, rule_within, Cfg, CfgLetter, CfgRange, CfgRule, CfgV, LetterV, NameTable,
};
use crate::lexer::{
    lemma_next_after_peek, lemma_next_progress, next_spec, peek_spec, start_state, token_opt_view,
    Lexer, LexerCtx, LexerV, Operator, Token,
};
use crate::parse_spec::{
    advanced, all_upper, close_options, colon_at, finish_ranges, is_or, related, resolve_all,
    resolve_one, s_group, s_letter, s_next, s_peek, s_postfix, s_range, s_rule, s_rules, s_terms,
    shift, shift_all, shift_rules, spec_parse, valid_options, valid_span, valid_term, HaltV, MaybeV,
    ParseErrorV, RangeSt,
};
use crate::text::{
    chars_of, is_alphanumeric, is_lowercase, is_numeric, push_decimal, string_from_chars,
    sub_chars,
};

verus! {

/// The errors of parsing a grammar.
#[derive(Debug)]
pub enum ParseError {
    /// Top level declaration not found, no rule with this name
    NoTopLevelDeclaration(String),
    /// A rule referenced but not defined
    UndefinedRule(String),
    /// Expected something (the text) but got this token
    UnexpectedToken(LexerCtx, String, Token),
    /// Got an unexpected operator
    UnexpectedOp(LexerCtx, Operator),
    /// Got range operator '-' without left hand side argument
    UnexpectedRange(LexerCtx),
    /// Got an invalid range
    InvalidRange(LexerCtx, CfgRange),
    /// A term that is not of the form `TERM_NAME:VAL`
    InvalidTerm(String),
    /// A term that depends on a rule; a term can only consist of terminal values
    TermRecurse(String),
    /// A term defined multiple times
    TermDupe(String),
    /// Got unexpected end of input
    GotEof(LexerCtx),
}

impl View for ParseError {
    type V = ParseErrorV;

    open spec fn view(&self) -> ParseErrorV {
        match self {
            ParseError::NoTopLevelDeclaration(s) => ParseErrorV::NoTopLevelDeclaration(s@),
            ParseError::UndefinedRule(s) => ParseErrorV::UndefinedRule(s@),
            ParseError::UnexpectedToken(c, s, t) => ParseErrorV::UnexpectedToken(c@, s@, t@),
            ParseError::UnexpectedOp(c, o) => ParseErrorV::UnexpectedOp(c@, *o),
            ParseError::UnexpectedRange(c) => ParseErrorV::UnexpectedRange(c@),
            ParseError::InvalidRange(c, r) => ParseErrorV::InvalidRange(c@, *r),
            ParseError::InvalidTerm(s) => ParseErrorV::InvalidTerm(s@),
            ParseError::TermRecurse(s) => ParseErrorV::TermRecurse(s@),
            ParseError::TermDupe(s) => ParseErrorV::TermDupe(s@),
            ParseError::GotEof(c) => ParseErrorV::GotEof(c@),
        }
    }
}

/// Why a step of the parser stopped: an error of the grammar, or the lexer
/// reaching the end of its buffer inside a token.
pub enum Halt {
    Error(ParseError),
    Overrun,
}

impl View for Halt {
    type V = HaltV;

    open spec fn view(&self) -> HaltV {
        match self {
            Halt::Error(e) => HaltV::Error(e@),
            Halt::Overrun => HaltV::Overrun,
        }
    }
}

/// A letter while parsing.
pub enum MaybeUnknown {
    /// The letter is known
    Known(CfgLetter),
    /// The letter is a reference to another rule, which must be retrieved later
    Unknown(String),
}

impl View for MaybeUnknown {
    type V = MaybeV;

    open spec fn view(&self) -> MaybeV {
        match self {
            MaybeUnknown::Known(l) => MaybeV::Known(l@),
            MaybeUnknown::Unknown(s) => MaybeV::Unknown(s@),
        }
    }
}

/// The views of a sequence of letters being parsed.
pub open spec fn maybes_view(v: Seq<MaybeUnknown>) -> Seq<MaybeV> {
    Seq::new(v.len(), |i: int| v[i]@)
}

/// A known letter refers only below `n`.
pub open spec fn known_within(x: MaybeV, n: int) -> bool {
    match x {
        MaybeV::Known(l) => letter_within(l, n),
        MaybeV::Unknown(_) => true,
    }
}

/// Every known letter refers only to letters stored before it.
pub open spec fn refs_below(m: Seq<MaybeV>) -> bool {
    forall|i: int| 0 <= i < m.len() ==> known_within(#[trigger] m[i], i)
}

/// Every rule of the map lies within `n` letters.
pub open spec fn map_within(map: Map<Seq<char>, CfgRule>, n: int) -> bool {
    forall|k: Seq<char>| #[trigger] map.contains_key(k) ==> rule_within(map[k], n)
}

proof fn lemma_push_keeps_refs_below(m: Seq<MaybeV>, x: MaybeV)
    requires
        refs_below(m),
        known_within(x, m.len() as int),
    ensures
        refs_below(m.push(x)),
{
    assert forall|i: int| 0 <= i < m.push(x).len() implies known_within(
        #[trigger] m.push(x)[i],
        i,
    ) by {
        if i < m.len() {
        }
    }
}

proof fn lemma_known_within_grows(x: MaybeV, n: int, k: int)
    requires
        known_within(x, n),
        n <= k,
    ensures
        known_within(x, k),
{
    match x {
        MaybeV::Known(l) => {
            match l {
                LetterV::Or(items) => {
                    assert forall|j: int| 0 <= j < items.len() implies rule_within(
                        #[trigger] items[j],
                        k,
                    ) by {
                        assert(rule_within(items[j], n));
                    }
                },
                _ => {},
            }
        },
        MaybeV::Unknown(_) => {},
    }
}

fn push_letter(letters: &mut Vec<MaybeUnknown>, x: MaybeUnknown)
    requires
        refs_below(maybes_view(old(letters)@)),
        known_within(x@, old(letters)@.len() as int),
    ensures
        maybes_view(final(letters)@) == maybes_view(old(letters)@).push(x@),
        final(letters)@.len() == old(letters)@.len() + 1,
        refs_below(maybes_view(final(letters)@)),
{
    let ghost xv = x@;
    letters.push(x);
    proof {
        lemma_push_keeps_refs_below(maybes_view(old(letters)@), xv);
    }
}

/// Whether `str` holds no lower-case character (the name of a terminal).
pub fn is_uppercase(str: &str) -> (b: bool)
    ensures
        b == all_upper(str@),
{
    let cs = chars_of(str);
    let mut i: usize = 0;
    while i < cs.len()
        invariant
            cs@ == str@,
            i <= cs@.len(),
            forall|j: int| 0 <= j < i ==> !crate::text::lowercase(#[trigger] cs@[j]),
        decreases cs@.len() - i,
    {
        if is_lowercase(cs[i]) {
            return false;
        }
        i = i + 1;
    }
    true
}

fn is_related(first: char, second: char) -> (b: bool)
    ensures
        b == related(first, second),
{
    is_numeric(first) == is_numeric(second) && is_lowercase(first) == is_lowercase(second)
        && first <= second && is_alphanumeric(first) && is_alphanumeric(second)
}

/// The range state held in the parser's variables.
pub open spec fn range_st(ranges: Seq<CfgRange>, from: Option<char>, needs_rhs: bool) -> RangeSt {
    RangeSt { ranges, from, needs_rhs }
}

fn shift_char(
    ranges: &mut Vec<CfgRange>,
    range_from: &mut Option<char>,
    needs_rhs: &mut bool,
    ch: char,
    ctx: &LexerCtx,
) -> (r: Result<(), ParseError>)
    ensures
        match shift(range_st(old(ranges)@, *old(range_from), *old(needs_rhs)), ch, ctx@) {
            Ok(st) => r is Ok && range_st(final(ranges)@, *final(range_from), *final(needs_rhs))
                == st,
            Err(e) => r matches Err(e2) && e2@ == e,
        },
{
    if *needs_rhs {
        match *range_from {
            Some(prev) => {
                if !is_related(prev, ch) {
                    return Err(ParseError::InvalidRange(ctx.duplicate(), CfgRange::new(prev, ch)));
                }
                ranges.push(CfgRange::new(prev, ch));
            },
            None => {
                return Err(ParseError::UnexpectedRange(ctx.duplicate()));
            },
        }
        *range_from = None;
        *needs_rhs = false;
    } else {
        match *range_from {
            Some(prev) => {
                if !(is_alphanumeric(prev) || prev == '_') {
                    return Err(
                        ParseError::InvalidRange(ctx.duplicate(), CfgRange::new_single(prev)),
                    );
                }
                ranges.push(CfgRange::new_single(prev));
            },
            None => {},
        }
        *range_from = Some(ch);
    }
    Ok(())
}

fn shift_chars(
    ranges: &mut Vec<CfgRange>,
    range_from: &mut Option<char>,
    needs_rhs: &mut bool,
    cs: &Vec<char>,
    ctx: &LexerCtx,
) -> (r: Result<(), ParseError>)
    ensures
        match shift_all(range_st(old(ranges)@, *old(range_from), *old(needs_rhs)), cs@, ctx@) {
            Ok(st) => r is Ok && range_st(final(ranges)@, *final(range_from), *final(needs_rhs))
                == st,
            Err(e) => r matches Err(e2) && e2@ == e,
        },
{
    let ghost st0 = range_st(ranges@, *range_from, *needs_rhs);
    let mut i: usize = 0;
    assert(cs@.subrange(0, cs@.len() as int) =~= cs@);
    while i < cs.len()
        invariant
            st0 == range_st(old(ranges)@, *old(range_from), *old(needs_rhs)),
            i <= cs@.len(),
            shift_all(range_st(ranges@, *range_from, *needs_rhs), cs@.subrange(i as int, cs@.len() as int), ctx@)
                == shift_all(st0, cs@, ctx@),
        decreases cs@.len() - i,
    {
        let ghost rest = cs@.subrange(i as int, cs@.len() as int);
        assert(rest.drop_first() =~= cs@.subrange(i + 1, cs@.len() as int));
        let ghost cur = range_st(ranges@, *range_from, *needs_rhs);
        assert(shift_all(cur, rest, ctx@) == match shift(cur, rest[0], ctx@) {
            Ok(st2) => shift_all(st2, rest.drop_first(), ctx@),
            Err(e) => Err(e),
        });
        match shift_char(ranges, range_from, needs_rhs, cs[i], ctx) {
            Ok(()) => {},
            Err(e) => {
                return Err(e);
            },
        }
        i = i + 1;
    }
    Ok(())
}

/// The shared requirements of the parser's steps on the lexer.
pub open spec fn lexer_ok(l: LexerV) -> bool {
    0 <= l.index <= l.src.len()
}

/// Reads the rest of a `[...]` letter.
fn parse_range(lex: &mut Lexer) -> (r: Result<Vec<CfgRange>, Halt>)
    requires
        lexer_ok(old(lex)@),
    ensures
        match s_range(old(lex)@, range_st(seq![], None, false)) {
            Ok((rs, l)) => r matches Ok(v) && v@ == rs && final(lex)@ == l,
            Err(h) => r matches Err(e) && e@ == h,
        },
        r is Ok ==> final(lex)@.src == old(lex)@.src && lexer_ok(final(lex)@) && old(lex)@.index
            <= final(lex)@.index,
{
    let mut ranges: Vec<CfgRange> = Vec::new();
    let mut range_from: Option<char> = None;
    let mut needs_rhs = false;
    let ghost l0 = lex@;
    loop
        invariant
            l0 == old(lex)@,
            lexer_ok(lex@),
            lex@.src == l0.src,
            l0.index <= lex@.index,
            s_range(lex@, range_st(ranges@, range_from, needs_rhs)) == s_range(
                l0,
                range_st(seq![], None, false),
            ),
        decreases lex@.src.len() - lex@.index,
    {
        let ghost l = lex@;
        let t = match lex.next_checked() {
            Ok(t) => t,
            Err(_) => {
                return Err(Halt::Overrun);
            },
        };
        proof {
            lemma_next_progress(l);
        }
        match t {
            None => {
                return Ok(finish_range_vec(ranges, range_from));
            },
            Some(tok) => {
                match tok {
                    Token::Op(Operator::CloseRange) => {
                        return Ok(finish_range_vec(ranges, range_from));
                    },
                    Token::Op(Operator::RangeTo) => {
                        needs_rhs = true;
                    },
                    Token::Op(_) => {},
                    Token::Num(n) => {
                        let mut ds: Vec<char> = Vec::new();
                        push_decimal(&mut ds, n);
                        let ctx = lex.ctx();
                        match shift_chars(&mut ranges, &mut range_from, &mut needs_rhs, &ds, &ctx) {
                            Ok(()) => {},
                            Err(e) => {
                                return Err(Halt::Error(e));
                            },
                        }
                    },
                    Token::String(s) => {
                        let cs = chars_of(s.as_str());
                        let ctx = lex.ctx();
                        match shift_chars(&mut ranges, &mut range_from, &mut needs_rhs, &cs, &ctx) {
                            Ok(()) => {},
                            Err(e) => {
                                return Err(Halt::Error(e));
                            },
                        }
                    },
                    Token::Ident(s) => {
                        let cs = chars_of(s.as_str());
                        let ctx = lex.ctx();
                        match shift_chars(&mut ranges, &mut range_from, &mut needs_rhs, &cs, &ctx) {
                            Ok(()) => {},
                            Err(e) => {
                                return Err(Halt::Error(e));
                            },
                        }
                    },
                }
            },
        }
    }
}

fn finish_range_vec(ranges: Vec<CfgRange>, range_from: Option<char>) -> (v: Vec<CfgRange>)
    ensures
        v@ == finish_ranges(range_st(ranges@, range_from, false)),
{
    let mut ranges = ranges;
    match range_from {
        Some(ch) => {
            ranges.push(CfgRange::new_single(ch));
        },
        None => {},
    }
    ranges
}

/// The letter that a suffix operator wraps around the letter stored at `idx`.
fn postfix_letter(op: &Operator, idx: usize) -> (r: Option<CfgLetter>)
    ensures
        match *op {
            Operator::Star => r matches Some(x) && x@ == LetterV::Many(idx),
            Operator::Plus => r matches Some(x) && x@ == LetterV::OneOrMore(idx),
            Operator::QuestionMark => r matches Some(x) && x@ == LetterV::Optional(idx),
            _ => r is None,
        },
{
    match op {
        Operator::Star => Some(CfgLetter::Many(idx)),
        Operator::Plus => Some(CfgLetter::OneOrMore(idx)),
        Operator::QuestionMark => Some(CfgLetter::Optional(idx)),
        _ => None,
    }
}

/// Reads the `*`, `+` and `?` after a letter.
fn parse_postfix(lex: &mut Lexer, letters: &mut Vec<MaybeUnknown>, letter: MaybeUnknown) -> (r:
    Result<MaybeUnknown, Halt>)
    requires
        lexer_ok(old(lex)@),
        refs_below(maybes_view(old(letters)@)),
        known_within(letter@, old(letters)@.len() as int),
    ensures
        refs_below(maybes_view(final(letters)@)),
        old(letters)@.len() <= final(letters)@.len(),
        match s_postfix(old(lex)@, maybes_view(old(letters)@), letter@) {
            Ok((x, l, m)) => r matches Ok(y) && y@ == x && final(lex)@ == l && maybes_view(
                final(letters)@,
            ) == m,
            Err(h) => r matches Err(e) && e@ == h,
        },
        r matches Ok(y) ==> known_within(y@, final(letters)@.len() as int),
        r is Ok ==> final(lex)@.src == old(lex)@.src && lexer_ok(final(lex)@) && old(lex)@.index
            <= final(lex)@.index,
{
    let ghost l0 = lex@;
    let ghost m0 = maybes_view(letters@);
    let ghost x0 = letter@;
    let mut cur = letter;
    loop
        invariant
            l0 == old(lex)@,
            m0 == maybes_view(old(letters)@),
            x0 == letter@,
            lexer_ok(lex@),
            lex@.src == l0.src,
            l0.index <= lex@.index,
            refs_below(maybes_view(letters@)),
            m0.len() <= letters@.len(),
            known_within(cur@, letters@.len() as int),
            s_postfix(lex@, maybes_view(letters@), cur@) == s_postfix(l0, m0, x0),
        decreases lex@.src.len() - lex@.index,
    {
        let ghost l = lex@;
        let t = match lex.peek_checked() {
            Ok(t) => t,
            Err(_) => {
                return Err(Halt::Overrun);
            },
        };
        proof {
            lemma_next_after_peek(l);
            lemma_next_progress(l);
        }
        let wrap = match &t {
            Some(Token::Op(op)) => postfix_letter(op, letters.len()),
            _ => None,
        };
        match wrap {
            None => {
                return Ok(cur);
            },
            Some(w) => {
                match lex.next_checked() {
                    Ok(_) => {},
                    Err(_) => {
                        return Err(Halt::Overrun);
                    },
                }
                push_letter(letters, cur);
                cur = MaybeUnknown::Known(w);
            },
        }
    }
}

/// The view of an optional letter being parsed.
pub open spec fn maybe_opt_view(x: Option<MaybeUnknown>) -> Option<MaybeV> {
    match x {
        Some(y) => Some(y@),
        None => None,
    }
}

/// Every rule of `ors` lies within `n` letters.
pub open spec fn rules_within(ors: Seq<CfgRule>, n: int) -> bool {
    forall|k: int| 0 <= k < ors.len() ==> rule_within(#[trigger] ors[k], n)
}

/// Every letter of `its` refers only below `n`.
pub open spec fn items_within(its: Seq<MaybeV>, n: int) -> bool {
    forall|k: int| 0 <= k < its.len() ==> known_within(#[trigger] its[k], n)
}

/// Every option of `ors` lies within the first `begin` items.
pub open spec fn offsets_ok(ors: Seq<CfgRule>, begin: int) -> bool {
    forall|k: int| 0 <= k < ors.len() ==> #[trigger] ors[k].0 <= ors[k].1 <= begin
}

proof fn lemma_items_within_grows(its: Seq<MaybeV>, n: int, k: int)
    requires
        items_within(its, n),
        n <= k,
    ensures
        items_within(its, k),
{
    assert forall|j: int| 0 <= j < its.len() implies known_within(#[trigger] its[j], k) by {
        lemma_known_within_grows(its[j], n, k);
    }
}

proof fn lemma_append_keeps_refs_below(m: Seq<MaybeV>, its: Seq<MaybeV>)
    requires
        refs_below(m),
        items_within(its, m.len() as int),
    ensures
        refs_below(m + its),
{
    assert forall|i: int| 0 <= i < (m + its).len() implies known_within(#[trigger] (m + its)[i], i) by {
        if i >= m.len() {
            assert((m + its)[i] == its[i - m.len()]);
            lemma_known_within_grows(its[i - m.len()], m.len() as int, i);
        }
    }
}

/// Ends a rule or group: stores its own letters `items` after the letters,
/// and, where `|` split them into options, one `Or` letter of the options
/// after them; gives the rule of the stored letters (or of the `Or` alone).
fn close_options_exec(
    letters: &mut Vec<MaybeUnknown>,
    items: Vec<MaybeUnknown>,
    begin: usize,
    ors: Vec<CfgRule>,
) -> (r: CfgRule)
    requires
        refs_below(maybes_view(old(letters)@)),
        items_within(maybes_view(items@), old(letters)@.len() as int),
        begin <= items@.len(),
        offsets_ok(ors@, begin as int),
    ensures
        (r, maybes_view(final(letters)@)) == close_options(
            maybes_view(old(letters)@),
            maybes_view(items@),
            begin as int,
            ors@,
        ),
        refs_below(maybes_view(final(letters)@)),
        old(letters)@.len() <= final(letters)@.len(),
        rule_within(r, final(letters)@.len() as int),
{
    let ghost m0 = maybes_view(letters@);
    let ghost iv = maybes_view(items@);
    let base: usize = letters.len();
    let n: usize = items.len();
    let mut items = items;
    letters.append(&mut items);
    assert(maybes_view(letters@) =~= m0 + iv);
    proof {
        lemma_append_keeps_refs_below(m0, iv);
    }
    if ors.len() == 0 {
        return (base, letters.len());
    }
    let end: usize = letters.len();
    let mut opts: Vec<CfgRule> = Vec::new();
    let ghost all = ors@.push((begin, n));
    let mut k: usize = 0;
    while k < ors.len()
        invariant
            k <= ors@.len(),
            end == base + n,
            all == ors@.push((begin, n)),
            offsets_ok(ors@, begin as int),
            begin <= n,
            opts@.len() == k,
            forall|j: int| 0 <= j < k ==> #[trigger] opts@[j] == shift_rules(all, base as int)[j],
        decreases ors@.len() - k,
    {
        let o = ors[k];
        opts.push((base + o.0, base + o.1));
        k = k + 1;
    }
    opts.push((base + begin, end));
    assert(opts@ =~= shift_rules(all, base as int));
    let start: usize = letters.len();
    assert(rules_within(opts@, start as int));
    push_letter(letters, MaybeUnknown::Known(CfgLetter::Or(opts)));
    (start, letters.len())
}

fn is_or_letter(x: &MaybeUnknown) -> (b: bool)
    ensures
        b == is_or(x@),
{
    match x {
        MaybeUnknown::Known(CfgLetter::Or(_)) => true,
        _ => false,
    }
}

/// Reads one letter with its suffixes; `None` at the end of the tokens.
fn parse_letter(lex: &mut Lexer, letters: &mut Vec<MaybeUnknown>) -> (r: Result<
    Option<MaybeUnknown>,
    Halt,
>)
    requires
        lexer_ok(old(lex)@),
        refs_below(maybes_view(old(letters)@)),
    ensures
        refs_below(maybes_view(final(letters)@)),
        old(letters)@.len() <= final(letters)@.len(),
        match s_letter(old(lex)@, maybes_view(old(letters)@)) {
            Ok((x, l, m)) => r matches Ok(y) && maybe_opt_view(y) == x && final(lex)@ == l
                && maybes_view(final(letters)@) == m,
            Err(h) => r matches Err(e) && e@ == h,
        },
        r matches Ok(Some(y)) ==> known_within(y@, final(letters)@.len() as int) && old(
            lex,
        )@.index < final(lex)@.index,
        r is Ok ==> final(lex)@.src == old(lex)@.src && lexer_ok(final(lex)@) && old(lex)@.index
            <= final(lex)@.index,
    decreases old(lex)@.src.len() - old(lex)@.index, 0int,
{
    let ghost l = lex@;
    let t = match lex.next_checked() {
        Ok(t) => t,
        Err(_) => {
            return Err(Halt::Overrun);
        },
    };
    proof {
        lemma_next_progress(l);
    }
    let tok = match t {
        None => {
            return Ok(None);
        },
        Some(tok) => tok,
    };
    let letter = match tok {
        Token::Ident(id) => {
            if is_uppercase(id.as_str()) {
                MaybeUnknown::Known(CfgLetter::Term(id))
            } else {
                MaybeUnknown::Unknown(id)
            }
        },
        Token::String(s) => MaybeUnknown::Known(CfgLetter::StrLit(s)),
        Token::Num(n) => {
            let mut ds: Vec<char> = Vec::new();
            push_decimal(&mut ds, n);
            MaybeUnknown::Known(CfgLetter::StrLit(string_from_chars(&ds)))
        },
        Token::Op(op) => {
            match op {
                Operator::Pipe => MaybeUnknown::Known(CfgLetter::Or(Vec::new())),
                Operator::OpenParen => {
                    match parse_group(lex, letters) {
                        Ok(r) => MaybeUnknown::Known(CfgLetter::Group(r)),
                        Err(h) => {
                            return Err(h);
                        },
                    }
                },
                Operator::OpenRange => {
                    match parse_range(lex) {
                        Ok(rs) => MaybeUnknown::Known(CfgLetter::Range(rs)),
                        Err(h) => {
                            return Err(h);
                        },
                    }
                },
                _ => {
                    return Err(Halt::Error(ParseError::UnexpectedOp(lex.ctx(), op)));
                },
            }
        },
    };
    match parse_postfix(lex, letters, letter) {
        Ok(x) => Ok(Some(x)),
        Err(h) => Err(h),
    }
}

/// Reads the rest of a `( ... )` group, up to its `)`.
fn parse_group(lex: &mut Lexer, letters: &mut Vec<MaybeUnknown>) -> (r: Result<CfgRule, Halt>)
    requires
        lexer_ok(old(lex)@),
        refs_below(maybes_view(old(letters)@)),
    ensures
        refs_below(maybes_view(final(letters)@)),
        old(letters)@.len() <= final(letters)@.len(),
        match s_group(old(lex)@, maybes_view(old(letters)@), seq![], 0, seq![]) {
            Ok((x, l, m)) => r matches Ok(y) && y == x && final(lex)@ == l && maybes_view(
                final(letters)@,
            ) == m,
            Err(h) => r matches Err(e) && e@ == h,
        },
        r matches Ok(y) ==> rule_within(y, final(letters)@.len() as int),
        r is Ok ==> final(lex)@.src == old(lex)@.src && lexer_ok(final(lex)@) && old(lex)@.index
            <= final(lex)@.index,
    decreases old(lex)@.src.len() - old(lex)@.index, 1int,
{
    let ghost l0 = lex@;
    let ghost m0 = maybes_view(letters@);
    let mut items: Vec<MaybeUnknown> = Vec::new();
    let mut begin: usize = 0;
    let mut ors: Vec<CfgRule> = Vec::new();
    assert(maybes_view(items@) =~= Seq::<MaybeV>::empty());
    loop
        invariant
            l0 == old(lex)@,
            m0 == maybes_view(old(letters)@),
            lexer_ok(lex@),
            lex@.src == l0.src,
            l0.index <= lex@.index,
            refs_below(maybes_view(letters@)),
            m0.len() <= letters@.len(),
            begin <= items@.len(),
            items_within(maybes_view(items@), letters@.len() as int),
            offsets_ok(ors@, begin as int),
            s_group(lex@, maybes_view(letters@), maybes_view(items@), begin as int, ors@) == s_group(
                l0,
                m0,
                seq![],
                0,
                seq![],
            ),
        decreases lex@.src.len() - lex@.index,
    {
        let ghost l = lex@;
        let t = match lex.peek_checked() {
            Ok(t) => t,
            Err(_) => {
                return Err(Halt::Overrun);
            },
        };
        proof {
            lemma_next_after_peek(l);
            lemma_next_progress(l);
        }
        match &t {
            Some(Token::Op(Operator::CloseParen)) => {
                match lex.next_checked() {
                    Ok(_) => {},
                    Err(_) => {
                        return Err(Halt::Overrun);
                    },
                }
                return Ok(close_options_exec(letters, items, begin, ors));
            },
            None => {
                return Err(Halt::Error(ParseError::GotEof(lex.ctx())));
            },
            _ => {},
        }
        let ghost n_before = letters@.len() as int;
        let x = match parse_letter(lex, letters) {
            Err(h) => {
                return Err(h);
            },
            Ok(None) => {
                return Err(Halt::Error(ParseError::GotEof(lex.ctx())));
            },
            Ok(Some(x)) => x,
        };
        proof {
            lemma_items_within_grows(maybes_view(items@), n_before, letters@.len() as int);
        }
        if is_or_letter(&x) {
            let ghost ors0 = ors@;
            ors.push((begin, items.len()));
            assert forall|k: int| 0 <= k < ors@.len() implies #[trigger] ors@[k].0 <= ors@[k].1
                <= items@.len() by {
                if k < ors0.len() {
                    assert(ors@[k] == ors0[k]);
                }
            }
            begin = items.len();
        } else {
            let ghost iv = maybes_view(items@);
            items.push(x);
            assert(maybes_view(items@) =~= iv.push(x@));
        }
    }
}

/// Reads the rest of a rule, up to its `;` or the end of the tokens.
fn parse_rule(lex: &mut Lexer, letters: &mut Vec<MaybeUnknown>) -> (r: Result<CfgRule, Halt>)
    requires
        lexer_ok(old(lex)@),
        refs_below(maybes_view(old(letters)@)),
    ensures
        refs_below(maybes_view(final(letters)@)),
        old(letters)@.len() <= final(letters)@.len(),
        match s_rule(old(lex)@, maybes_view(old(letters)@), seq![], 0, seq![]) {
            Ok((x, l, m)) => r matches Ok(y) && y == x && final(lex)@ == l && maybes_view(
                final(letters)@,
            ) == m,
            Err(h) => r matches Err(e) && e@ == h,
        },
        r matches Ok(y) ==> rule_within(y, final(letters)@.len() as int),
        r is Ok ==> final(lex)@.src == old(lex)@.src && lexer_ok(final(lex)@) && old(lex)@.index
            <= final(lex)@.index,
{
    let ghost l0 = lex@;
    let ghost m0 = maybes_view(letters@);
    let mut items: Vec<MaybeUnknown> = Vec::new();
    let mut begin: usize = 0;
    let mut ors: Vec<CfgRule> = Vec::new();
    assert(maybes_view(items@) =~= Seq::<MaybeV>::empty());
    loop
        invariant
            l0 == old(lex)@,
            m0 == maybes_view(old(letters)@),
            lexer_ok(lex@),
            lex@.src == l0.src,
            l0.index <= lex@.index,
            refs_below(maybes_view(letters@)),
            m0.len() <= letters@.len(),
            begin <= items@.len(),
            items_within(maybes_view(items@), letters@.len() as int),
            offsets_ok(ors@, begin as int),
            s_rule(lex@, maybes_view(letters@), maybes_view(items@), begin as int, ors@) == s_rule(
                l0,
                m0,
                seq![],
                0,
                seq![],
            ),
        decreases lex@.src.len() - lex@.index,
    {
        let ghost l = lex@;
        let t = match lex.peek_checked() {
            Ok(t) => t,
            Err(_) => {
                return Err(Halt::Overrun);
            },
        };
        proof {
            lemma_next_after_peek(l);
            lemma_next_progress(l);
        }
        match &t {
            Some(Token::Op(Operator::Eol)) => {
                match lex.next_checked() {
                    Ok(_) => {},
                    Err(_) => {
                        return Err(Halt::Overrun);
                    },
                }
                return Ok(close_options_exec(letters, items, begin, ors));
            },
            _ => {},
        }
        let ghost n_before = letters@.len() as int;
        let x = match parse_letter(lex, letters) {
            Err(h) => {
                return Err(h);
            },
            Ok(None) => {
                proof {
                    lemma_items_within_grows(maybes_view(items@), n_before, letters@.len() as int);
                }
                return Ok(close_options_exec(letters, items, begin, ors));
            },
            Ok(Some(x)) => x,
        };
        proof {
            lemma_items_within_grows(maybes_view(items@), n_before, letters@.len() as int);
        }
        if is_or_letter(&x) {
            let ghost ors0 = ors@;
            ors.push((begin, items.len()));
            assert forall|k: int| 0 <= k < ors@.len() implies #[trigger] ors@[k].0 <= ors@[k].1
                <= items@.len() by {
                if k < ors0.len() {
                    assert(ors@[k] == ors0[k]);
                }
            }
            begin = items.len();
        } else {
            let ghost iv = maybes_view(items@);
            items.push(x);
            assert(maybes_view(items@) =~= iv.push(x@));
        }
    }
}

proof fn lemma_valid_options_each(m: Seq<MaybeV>, items: Seq<CfgRule>, bound: int, big: int, k: int)
    requires
        valid_options(m, items, bound, big),
        0 <= k < big,
    ensures
        valid_span(m, items[k].0 as int, items[k].1 as int, bound),
    decreases big,
{
    if k < big - 1 {
        lemma_valid_options_each(m, items, bound, big - 1, k);
    }
}

/// Whether the letter at `id` is made of string literals and ranges only.
fn is_valid_term(id: usize, maybes: &Vec<MaybeUnknown>) -> (b: bool)
    requires
        refs_below(maybes_view(maybes@)),
        id < maybes@.len(),
    ensures
        b == valid_term(maybes_view(maybes@), id as int),
    decreases id, 2int, 0int,
{
    let ghost m = maybes_view(maybes@);
    match &maybes[id] {
        MaybeUnknown::Unknown(_) => false,
        MaybeUnknown::Known(letter) => {
            match letter {
                CfgLetter::Rule(_) => false,
                CfgLetter::Term(_) => false,
                CfgLetter::StrLit(_) => true,
                CfgLetter::Range(_) => true,
                CfgLetter::Or(items) => {
                    assert forall|k: int| 0 <= k < items@.len() implies rule_within(
                        #[trigger] items@[k],
                        id as int,
                    ) by {
                        lemma_or_within(items@, id as int, k);
                    }
                    all_options_valid(maybes, items, id)
                },
                CfgLetter::Optional(c) => {
                    is_valid_term(*c, maybes)
                },
                CfgLetter::Many(c) => {
                    is_valid_term(*c, maybes)
                },
                CfgLetter::OneOrMore(c) => {
                    is_valid_term(*c, maybes)
                },
                CfgLetter::Group(r) => {
                    all_span_valid(maybes, r.0, r.1, id)
                },
            }
        },
    }
}

/// Whether every letter of every option is a valid term letter.
fn all_options_valid(maybes: &Vec<MaybeUnknown>, items: &Vec<CfgRule>, bound: usize) -> (b: bool)
    requires
        refs_below(maybes_view(maybes@)),
        bound <= maybes@.len(),
        rules_within(items@, bound as int),
    ensures
        b == valid_options(maybes_view(maybes@), items@, bound as int, items@.len() as int),
    decreases bound, 1int, items@.len(),
{
    let ghost m = maybes_view(maybes@);
    let mut k: usize = 0;
    while k < items.len()
        invariant
            k <= items@.len(),
            m == maybes_view(maybes@),
            refs_below(m),
            bound <= maybes@.len(),
            rules_within(items@, bound as int),
            valid_options(m, items@, bound as int, k as int),
        decreases items@.len() - k,
    {
        if !all_span_valid(maybes, items[k].0, items[k].1, bound) {
            proof {
                if valid_options(m, items@, bound as int, items@.len() as int) {
                    lemma_valid_options_each(m, items@, bound as int, items@.len() as int, k as int);
                }
            }
            return false;
        }
        k = k + 1;
    }
    true
}

/// Whether every letter from `lo` up to `hi` is a valid term letter.
fn all_span_valid(maybes: &Vec<MaybeUnknown>, lo: usize, hi: usize, bound: usize) -> (b: bool)
    requires
        refs_below(maybes_view(maybes@)),
        lo <= hi <= bound,
        bound <= maybes@.len(),
    ensures
        b == valid_span(maybes_view(maybes@), lo as int, hi as int, bound as int),
    decreases bound, 0int, hi - lo,
{
    let ghost m = maybes_view(maybes@);
    let mut j: usize = lo;
    while j < hi
        invariant
            lo <= j <= hi <= bound <= maybes@.len(),
            m == maybes_view(maybes@),
            refs_below(m),
            valid_span(m, lo as int, hi as int, bound as int) == valid_span(
                m,
                j as int,
                hi as int,
                bound as int,
            ),
        decreases hi - j,
    {
        if !is_valid_term(j, maybes) {
            return false;
        }
        j = j + 1;
    }
    true
}

/// Reads the rule declarations, up to the end of the tokens.
fn parse_rules(lex: &mut Lexer, letters: &mut Vec<MaybeUnknown>, map: &mut NameTable) -> (r: Result<
    (),
    Halt,
>)
    requires
        lexer_ok(old(lex)@),
        refs_below(maybes_view(old(letters)@)),
        map_within(old(map)@, old(letters)@.len() as int),
    ensures
        refs_below(maybes_view(final(letters)@)),
        map_within(final(map)@, final(letters)@.len() as int),
        match s_rules(old(lex)@, maybes_view(old(letters)@), old(map)@) {
            Ok((m, mp)) => r is Ok && maybes_view(final(letters)@) == m && final(map)@ == mp,
            Err(h) => r matches Err(e) && e@ == h,
        },
{
    let ghost l0 = lex@;
    let ghost m0 = maybes_view(letters@);
    let ghost map0 = map@;
    loop
        invariant
            l0 == old(lex)@,
            m0 == maybes_view(old(letters)@),
            map0 == old(map)@,
            lexer_ok(lex@),
            lex@.src == l0.src,
            refs_below(maybes_view(letters@)),
            map_within(map@, letters@.len() as int),
            s_rules(lex@, maybes_view(letters@), map@) == s_rules(l0, m0, map0),
        decreases lex@.src.len() - lex@.index,
    {
        let ghost l = lex@;
        let tok = match lex.next_checked() {
            Err(_) => {
                return Err(Halt::Overrun);
            },
            Ok(None) => {
                return Ok(());
            },
            Ok(Some(t)) => t,
        };
        proof {
            lemma_next_progress(l);
        }
        let ident = match tok {
            Token::Ident(id) => id,
            other => {
                return Err(
                    Halt::Error(
                        ParseError::UnexpectedToken(lex.ctx(), "identifier".to_owned(), other),
                    ),
                );
            },
        };
        let ghost l1 = lex@;
        let t2 = match lex.next_checked() {
            Err(_) => {
                return Err(Halt::Overrun);
            },
            Ok(None) => {
                return Err(Halt::Error(ParseError::GotEof(lex.ctx())));
            },
            Ok(Some(t)) => t,
        };
        proof {
            lemma_next_progress(l1);
        }
        match t2 {
            Token::Op(Operator::RuleDeclare) => {},
            other => {
                return Err(Halt::Error(ParseError::UnexpectedToken(lex.ctx(), "':'".to_owned(), other)));
            },
        }
        let ghost l2 = lex@;
        let tp = match lex.peek_checked() {
            Err(_) => {
                return Err(Halt::Overrun);
            },
            Ok(t) => t,
        };
        proof {
            lemma_next_after_peek(l2);
            lemma_next_progress(l2);
        }
        match tp {
            Some(Token::Op(Operator::Pipe)) => {
                match lex.next_checked() {
                    Err(_) => {
                        return Err(Halt::Overrun);
                    },
                    Ok(_) => {},
                }
            },
            _ => {},
        }
        let rules = match parse_rule(lex, letters) {
            Err(h) => {
                return Err(h);
            },
            Ok(r) => r,
        };
        map.insert(ident, rules);
    }
}

/// The texts of a sequence of strings.
pub open spec fn strings_view(ts: Seq<String>) -> Seq<Seq<char>> {
    Seq::new(ts.len(), |i: int| ts[i]@)
}

/// The index of the first `:` in `cs`, if any.
fn find_colon(cs: &Vec<char>) -> (r: Option<usize>)
    ensures
        r matches Some(k) ==> colon_at(cs@, 0) == Some(k as int) && k < cs@.len(),
        r is None ==> colon_at(cs@, 0) is None,
{
    let mut i: usize = 0;
    while i < cs.len()
        invariant
            i <= cs@.len(),
            colon_at(cs@, 0) == colon_at(cs@, i as int),
        decreases cs@.len() - i,
    {
        if cs[i] == ':' {
            return Some(i);
        }
        i = i + 1;
    }
    None
}

/// Adds the terms given as `NAME:LETTERS`.
fn parse_terms(terms: &[String], letters: &mut Vec<MaybeUnknown>, tmap: &mut NameTable) -> (r:
    Result<(), Halt>)
    requires
        refs_below(maybes_view(old(letters)@)),
        map_within(old(tmap)@, old(letters)@.len() as int),
    ensures
        refs_below(maybes_view(final(letters)@)),
        old(letters)@.len() <= final(letters)@.len(),
        map_within(final(tmap)@, final(letters)@.len() as int),
        match s_terms(strings_view(terms@), 0, maybes_view(old(letters)@), old(tmap)@) {
            Ok((m, mp)) => r is Ok && maybes_view(final(letters)@) == m && final(tmap)@ == mp,
            Err(h) => r matches Err(e) && e@ == h,
        },
{
    let ghost tv = strings_view(terms@);
    let ghost m0 = maybes_view(letters@);
    let ghost tm0 = tmap@;
    let mut i: usize = 0;
    while i < terms.len()
        invariant
            tv == strings_view(terms@),
            m0 == maybes_view(old(letters)@),
            tm0 == old(tmap)@,
            i <= terms@.len(),
            refs_below(maybes_view(letters@)),
            m0.len() <= letters@.len(),
            map_within(tmap@, letters@.len() as int),
            s_terms(tv, i as int, maybes_view(letters@), tmap@) == s_terms(tv, 0, m0, tm0),
        decreases terms@.len() - i,
    {
        let term = &terms[i];
        let cs = chars_of(term.as_str());
        let k = match find_colon(&cs) {
            None => {
                return Err(Halt::Error(ParseError::InvalidTerm(term.clone())));
            },
            Some(k) => k,
        };
        let n: usize = cs.len();
        let name = string_from_chars(&sub_chars(&cs, 0, k));
        let value = string_from_chars(&sub_chars(&cs, k + 1, n));
        let mut lex = Lexer::new(value.as_str(), name.as_str());
        let r = match parse_rule(&mut lex, letters) {
            Err(h) => {
                return Err(h);
            },
            Ok(r) => r,
        };
        if !all_span_valid(letters, r.0, r.1, letters.len()) {
            return Err(Halt::Error(ParseError::TermRecurse(name)));
        }
        if tmap.contains_key(name.as_str()) {
            return Err(Halt::Error(ParseError::TermDupe(name)));
        }
        tmap.insert(name, r);
        i = i + 1;
    }
    Ok(())
}

impl MaybeUnknown {
    /// The letter, with a reference to a rule looked up in `map`; the
    /// result is always `CfgLetter::Rule` where the lookup was made.
    pub fn into_letter(self, map: &NameTable) -> (r: Result<CfgLetter, ParseError>)
        ensures
            match resolve_one(self@, map@) {
                Ok(l) => r matches Ok(x) && x@ == l,
                Err(e) => r matches Err(x) && x@ == e,
            },
    {
        match self {
            MaybeUnknown::Known(l) => Ok(l),
            MaybeUnknown::Unknown(name) => {
                match map.get(name.as_str()) {
                    Some(rule) => Ok(CfgLetter::Rule(rule)),
                    None => Err(ParseError::UndefinedRule(name)),
                }
            },
        }
    }
}

proof fn lemma_resolve_prefix_error(m: Seq<MaybeV>, map: Map<Seq<char>, CfgRule>, k: int)
    requires
        0 <= k <= m.len(),
        resolve_all(m.take(k), map) is Err,
    ensures
        resolve_all(m, map) == resolve_all(m.take(k), map),
    decreases m.len(),
{
    if k < m.len() {
        assert(m.drop_last().take(k) == m.take(k));
        lemma_resolve_prefix_error(m.drop_last(), map, k);
    } else {
        assert(m.take(k) == m);
    }
}

/// All letters resolved against `map`, in order.
fn resolve_letters(maybes: Vec<MaybeUnknown>, map: &NameTable) -> (r: Result<
    Vec<CfgLetter>,
    ParseError,
>)
    requires
        refs_below(maybes_view(maybes@)),
        map_within(map@, maybes@.len() as int),
    ensures
        match resolve_all(maybes_view(maybes@), map@) {
            Ok(ls) => r matches Ok(v) && crate::cfg::letters_view(v@) == ls,
            Err(e) => r matches Err(x) && x@ == e,
        },
        r matches Ok(v) ==> v@.len() == maybes@.len() && forall|i: int|
            0 <= i < v@.len() ==> letter_within(#[trigger] v@[i]@, v@.len() as int),
        r matches Ok(v) ==> forall|i: int| 0 <= i < v@.len() ==> letter_below(#[trigger] v@[i]@, i),
{
    let ghost m = maybes_view(maybes@);
    let ghost all = maybes@;
    let ghost n = maybes@.len() as int;
    let mut out: Vec<CfgLetter> = Vec::new();
    assert(crate::cfg::letters_view(out@) =~= Seq::<LetterV>::empty());
    for x in it: maybes.into_iter()
        invariant
            it.seq() == all,
            m == maybes_view(all),
            n == all.len(),
            refs_below(m),
            map_within(map@, n),
            out@.len() == it.index(),
            resolve_all(m.take(it.index() as int), map@) == Ok::<Seq<LetterV>, ParseErrorV>(
                crate::cfg::letters_view(out@),
            ),
            forall|i: int| 0 <= i < out@.len() ==> letter_within(#[trigger] out@[i]@, n),
            forall|i: int| 0 <= i < out@.len() ==> letter_below(#[trigger] out@[i]@, i),
    {
        let ghost k = it.index() as int;
        assert(m.take(k + 1).drop_last() =~= m.take(k));
        match x.into_letter(map) {
            Ok(l) => {
                proof {
                    lemma_known_within_grows(m[k], k, n);
                }
                let ghost prev = out@;
                out.push(l);
                assert(crate::cfg::letters_view(out@) =~= crate::cfg::letters_view(prev).push(
                    out@.last()@,
                ));
            },
            Err(e) => {
                proof {
                    lemma_resolve_prefix_error(m, map@, k + 1);
                }
                return Err(e);
            },
        }
    }
    assert(m.take(n) =~= m);
    Ok(out)
}

proof fn lemma_map_within_grows(map: Map<Seq<char>, CfgRule>, n: int, k: int)
    requires
        map_within(map, n),
        n <= k,
    ensures
        map_within(map, k),
{
}

/// Parses a grammar, as [`parse`] does, but gives `None` where the lexer
/// would run past the end of the text (inside a comment, number,
/// identifier or quoted string that the text ends in), where [`parse`]
/// cannot be called.
pub fn parse_checked(src: &str, filename: &str, terms: &[String], top_level: &str) -> (r: Option<
    Result<Cfg, ParseError>,
>)
    ensures
        match spec_parse(src@, filename@, strings_view(terms@), top_level@) {
            Ok(c) => r matches Some(Ok(g)) && g@ == c,
            Err(HaltV::Error(e)) => r matches Some(Err(x)) && x@ == e,
            Err(HaltV::Overrun) => r is None,
        },
        r matches Some(Ok(g)) ==> g@.well_formed() && g@.ordered(),
{
    let mut lex = Lexer::new(src, filename);
    let mut maybes: Vec<MaybeUnknown> = Vec::new();
    let mut map = NameTable::new();
    assert(maybes_view(maybes@) =~= Seq::<MaybeV>::empty());
    match parse_rules(&mut lex, &mut maybes, &mut map) {
        Ok(()) => {},
        Err(Halt::Overrun) => {
            return None;
        },
        Err(Halt::Error(e)) => {
            return Some(Err(e));
        },
    }
    let ghost n1 = maybes@.len() as int;
    let mut terms_map = NameTable::new();
    match parse_terms(terms, &mut maybes, &mut terms_map) {
        Ok(()) => {},
        Err(Halt::Overrun) => {
            return None;
        },
        Err(Halt::Error(e)) => {
            return Some(Err(e));
        },
    }
    proof {
        lemma_map_within_grows(map@, n1, maybes@.len() as int);
    }
    let tld_rule_pos = match map.get(top_level) {
        Some(rule_pos) => rule_pos,
        None => {
            return Some(Err(ParseError::NoTopLevelDeclaration(top_level.to_owned())));
        },
    };
    match resolve_letters(maybes, &map) {
        Ok(letters) => {
            let cfg = Cfg::new(letters, tld_rule_pos, terms_map);
            Some(Ok(cfg))
        },
        Err(e) => Some(Err(e)),
    }
}

/// Parses the grammar `src` (from the file `filename`) with the extra
/// terms `terms`, each written `NAME:LETTERS`, and `top_level` as the rule
/// to start from. The lexer must not run past the end of `src` (or of a
/// term) on the way: [`parse_checked`] tells whether it would.
pub fn parse(src: &str, filename: &str, terms: &[String], top_level: &str) -> (r: Result<
    Cfg,
    ParseError,
>)
    requires
        !(spec_parse(src@, filename@, strings_view(terms@), top_level@) matches Err(
            HaltV::Overrun,
        )),
    ensures
        match spec_parse(src@, filename@, strings_view(terms@), top_level@) {
            Ok(c) => r matches Ok(g) && g@ == c,
            Err(HaltV::Error(e)) => r matches Err(x) && x@ == e,
            Err(HaltV::Overrun) => false,
        },
        r matches Ok(g) ==> g@.well_formed() && g@.ordered(),
{
    match parse_checked(src, filename, terms, top_level) {
        Some(r) => r,
        None => {
            Err(ParseError::NoTopLevelDeclaration(top_level.to_owned()))
        },
    }
}

} // verus!
