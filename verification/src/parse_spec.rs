//! What parsing a grammar gives, as spec functions over the lexer's states.
//!
//! Each function here takes a lexer state and the letters built so far, and
//! gives what the matching step of the parser leaves behind: the lexer state,
//! the letters, and its result; or why it stopped (`HaltV`): an error of the
//! grammar, or the lexer running past its buffer. Loops of the parser are
//! recursive functions here; a recursive call that the parser makes after
//! reading at least one token carries the guard `advanced`, which the
//! parser's proofs show to hold.
use vstd::prelude::*;

use crate::cfg::{CfgRange, CfgRule, CfgV, LetterV};
use crate::lexer::{next_spec, peek_spec, start_state, CtxV, LexerV, Operator, TokenV};
use crate::text::{alphanumeric, decimal_text, lowercase, numeric};

verus! {

/// A letter while parsing: known, or a reference to a rule by its name.
pub enum MaybeV {
    Known(LetterV),
    Unknown(Seq<char>),
}

/// The errors of parsing a grammar, with texts as characters.
pub enum ParseErrorV {
    NoTopLevelDeclaration(Seq<char>),
    UndefinedRule(Seq<char>),
    UnexpectedToken(CtxV, Seq<char>, TokenV),
    UnexpectedOp(CtxV, Operator),
    UnexpectedRange(CtxV),
    InvalidRange(CtxV, CfgRange),
    InvalidTerm(Seq<char>),
    TermRecurse(Seq<char>),
    TermDupe(Seq<char>),
    GotEof(CtxV),
}

/// Why parsing stopped: an error of the grammar, or the lexer running past
/// the end of its buffer (where the parser cannot go on).
pub enum HaltV {
    Error(ParseErrorV),
    Overrun,
}

/// The state of a `[...]` letter being read: the ranges so far, a character
/// waiting for what follows it, and whether a `-` is waiting for its right
/// side.
pub struct RangeSt {
    pub ranges: Seq<CfgRange>,
    pub from: Option<char>,
    pub needs_rhs: bool,
}

/// `l2` is `l` moved forward by at least one character, and not past the end.
pub open spec fn advanced(l: LexerV, l2: LexerV) -> bool {
    &&& l2.src == l.src
    &&& l.index < l2.index
    &&& l2.index <= l.src.len()
}

/// The next token and the state after it.
pub open spec fn s_next(l: LexerV) -> Result<(Option<TokenV>, LexerV), HaltV> {
    match next_spec(l) {
        Some(p) => Ok(p),
        None => Err(HaltV::Overrun),
    }
}

/// The next token, and the state after peeking at it.
pub open spec fn s_peek(l: LexerV) -> Result<(Option<TokenV>, LexerV), HaltV> {
    match peek_spec(l) {
        Some(p) => Ok(p),
        None => Err(HaltV::Overrun),
    }
}

/// A name with no lower-case character is the name of a terminal.
pub open spec fn all_upper(s: Seq<char>) -> bool {
    forall|i: int| 0 <= i < s.len() ==> !lowercase(#[trigger] s[i])
}

/// Two characters that may bound a range: both numeric or neither, both
/// lower case or neither, in order, and both alphanumeric.
pub open spec fn related(first: char, second: char) -> bool {
    &&& numeric(first) == numeric(second)
    &&& lowercase(first) == lowercase(second)
    &&& first <= second
    &&& alphanumeric(first)
    &&& alphanumeric(second)
}

/// One character of a `[...]` letter read into the range state; `ctx` is
/// where errors are reported.
pub open spec fn shift(st: RangeSt, ch: char, ctx: CtxV) -> Result<RangeSt, ParseErrorV> {
    if st.needs_rhs {
        match st.from {
            Some(prev) => if !related(prev, ch) {
                Err(ParseErrorV::InvalidRange(ctx, CfgRange { from: prev, to: Some(ch) }))
            } else {
                Ok(
                    RangeSt {
                        ranges: st.ranges.push(CfgRange { from: prev, to: Some(ch) }),
                        from: None,
                        needs_rhs: false,
                    },
                )
            },
            None => Err(ParseErrorV::UnexpectedRange(ctx)),
        }
    } else {
        match st.from {
            Some(prev) => if !(alphanumeric(prev) || prev == '_') {
                Err(ParseErrorV::InvalidRange(ctx, CfgRange { from: prev, to: None }))
            } else {
                Ok(
                    RangeSt {
                        ranges: st.ranges.push(CfgRange { from: prev, to: None }),
                        from: Some(ch),
                        needs_rhs: false,
                    },
                )
            },
            None => Ok(RangeSt { ranges: st.ranges, from: Some(ch), needs_rhs: false }),
        }
    }
}

/// The characters `cs` read into the range state in order; the first error
/// stops it.
pub open spec fn shift_all(st: RangeSt, cs: Seq<char>, ctx: CtxV) -> Result<RangeSt, ParseErrorV>
    decreases cs.len(),
{
    if cs.len() == 0 {
        Ok(st)
    } else {
        match shift(st, cs[0], ctx) {
            Ok(st2) => shift_all(st2, cs.drop_first(), ctx),
            Err(e) => Err(e),
        }
    }
}

/// The ranges of a finished `[...]` letter: a waiting character becomes a
/// range of its own.
pub open spec fn finish_ranges(st: RangeSt) -> Seq<CfgRange> {
    match st.from {
        Some(ch) => st.ranges.push(CfgRange { from: ch, to: None }),
        None => st.ranges,
    }
}

/// The rest of a `[...]` letter, up to `]` or the end of the tokens.
pub open spec fn s_range(l: LexerV, st: RangeSt) -> Result<(Seq<CfgRange>, LexerV), HaltV>
    decreases l.src.len() - l.index,
{
    match s_next(l) {
        Err(h) => Err(h),
        Ok((None, l1)) => Ok((finish_ranges(st), l1)),
        Ok((Some(tok), l1)) => if !advanced(l, l1) {
            Err(HaltV::Overrun)
        } else {
            match tok {
                TokenV::Op(Operator::CloseRange) => Ok((finish_ranges(st), l1)),
                TokenV::Op(Operator::RangeTo) => s_range(
                    l1,
                    RangeSt { ranges: st.ranges, from: st.from, needs_rhs: true },
                ),
                TokenV::Op(_) => s_range(l1, st),
                TokenV::Num(n) => match shift_all(st, decimal_text(n as nat), l1.ctx) {
                    Ok(st2) => s_range(l1, st2),
                    Err(e) => Err(HaltV::Error(e)),
                },
                TokenV::String(s) => match shift_all(st, s, l1.ctx) {
                    Ok(st2) => s_range(l1, st2),
                    Err(e) => Err(HaltV::Error(e)),
                },
                TokenV::Ident(s) => match shift_all(st, s, l1.ctx) {
                    Ok(st2) => s_range(l1, st2),
                    Err(e) => Err(HaltV::Error(e)),
                },
            }
        },
    }
}

/// The `*`, `+` and `?` after a letter: each wraps the letter so far, which
/// is stored in the letters.
pub open spec fn s_postfix(l: LexerV, m: Seq<MaybeV>, letter: MaybeV) -> Result<
    (MaybeV, LexerV, Seq<MaybeV>),
    HaltV,
>
    decreases l.src.len() - l.index,
{
    match s_peek(l) {
        Err(h) => Err(h),
        Ok((t, lp)) => {
            let wrap = match t {
                Some(TokenV::Op(Operator::Star)) => Some(LetterV::Many(m.len() as usize)),
                Some(TokenV::Op(Operator::Plus)) => Some(LetterV::OneOrMore(m.len() as usize)),
                Some(TokenV::Op(Operator::QuestionMark)) => Some(
                    LetterV::Optional(m.len() as usize),
                ),
                _ => None,
            };
            match wrap {
                None => Ok((letter, lp, m)),
                Some(w) => match s_next(lp) {
                    Err(h) => Err(h),
                    Ok((_, l2)) => if advanced(l, l2) {
                        s_postfix(l2, m.push(letter), MaybeV::Known(w))
                    } else {
                        Err(HaltV::Overrun)
                    },
                },
            }
        },
    }
}

/// The rules `ors`, given as offsets, moved on by `base`.
pub open spec fn shift_rules(ors: Seq<CfgRule>, base: int) -> Seq<CfgRule> {
    Seq::new(ors.len(), |k: int| ((base + ors[k].0) as usize, (base + ors[k].1) as usize))
}

/// The end of a rule or group whose own letters are `its`: they are stored
/// after the letters `m`, one after the other. Where `|` split them (`ors`,
/// with the last option from `begin`, as offsets into `its`), the options
/// become one `Or` letter stored after them, and the rule is that letter
/// alone; otherwise the rule is the letters `its`.
pub open spec fn close_options(m: Seq<MaybeV>, its: Seq<MaybeV>, begin: int, ors: Seq<CfgRule>) -> (
    CfgRule,
    Seq<MaybeV>,
) {
    let m2 = m + its;
    if ors.len() > 0 {
        let opts = shift_rules(ors.push((begin as usize, its.len() as usize)), m.len() as int);
        let m3 = m2.push(MaybeV::Known(LetterV::Or(opts)));
        ((m2.len() as usize, m3.len() as usize), m3)
    } else {
        ((m.len() as usize, m2.len() as usize), m2)
    }
}

/// The letter is a `|` (an `Or` letter, which splits options).
pub open spec fn is_or(x: MaybeV) -> bool {
    x matches MaybeV::Known(LetterV::Or(_))
}

/// One letter with its suffixes: `None` at the end of the tokens.
pub open spec fn s_letter(l: LexerV, m: Seq<MaybeV>) -> Result<
    (Option<MaybeV>, LexerV, Seq<MaybeV>),
    HaltV,
>
    decreases l.src.len() - l.index, 0int,
{
    match s_next(l) {
        Err(h) => Err(h),
        Ok((None, l1)) => Ok((None, l1, m)),
        Ok((Some(tok), l1)) => if !advanced(l, l1) {
            Err(HaltV::Overrun)
        } else {
            let head: Result<(MaybeV, LexerV, Seq<MaybeV>), HaltV> = match tok {
                TokenV::Ident(id) => if all_upper(id) {
                    Ok((MaybeV::Known(LetterV::Term(id)), l1, m))
                } else {
                    Ok((MaybeV::Unknown(id), l1, m))
                },
                TokenV::String(s) => Ok((MaybeV::Known(LetterV::StrLit(s)), l1, m)),
                TokenV::Num(n) => Ok((MaybeV::Known(LetterV::StrLit(decimal_text(n as nat))), l1, m)),
                TokenV::Op(Operator::Pipe) => Ok((MaybeV::Known(LetterV::Or(seq![])), l1, m)),
                TokenV::Op(Operator::OpenParen) => match s_group(l1, m, seq![], 0, seq![]) {
                    Err(h) => Err(h),
                    Ok((r, l2, m2)) => Ok((MaybeV::Known(LetterV::Group(r)), l2, m2)),
                },
                TokenV::Op(Operator::OpenRange) => match s_range(
                    l1,
                    RangeSt { ranges: seq![], from: None, needs_rhs: false },
                ) {
                    Err(h) => Err(h),
                    Ok((rs, l2)) => Ok((MaybeV::Known(LetterV::Range(rs)), l2, m)),
                },
                TokenV::Op(op) => Err(HaltV::Error(ParseErrorV::UnexpectedOp(l1.ctx, op))),
            };
            match head {
                Err(h) => Err(h),
                Ok((letter, l2, m2)) => match s_postfix(l2, m2, letter) {
                    Err(h) => Err(h),
                    Ok((letter2, l3, m3)) => Ok((Some(letter2), l3, m3)),
                },
            }
        },
    }
}

/// The rest of a `( ... )` group, up to its `)`: the rule that it groups.
/// `its` are the group's own letters so far, `ors` the options closed so
/// far and `begin` where the open option starts (offsets into `its`);
/// letters that a suffix wraps, and the contents of inner groups, go to `m`.
pub open spec fn s_group(
    l: LexerV,
    m: Seq<MaybeV>,
    its: Seq<MaybeV>,
    begin: int,
    ors: Seq<CfgRule>,
) -> Result<(CfgRule, LexerV, Seq<MaybeV>), HaltV>
    decreases l.src.len() - l.index, 1int,
{
    match s_peek(l) {
        Err(h) => Err(h),
        Ok((None, lp)) => Err(HaltV::Error(ParseErrorV::GotEof(lp.ctx))),
        Ok((Some(t), lp)) => if t == TokenV::Op(Operator::CloseParen) {
            match s_next(lp) {
                Err(h) => Err(h),
                Ok((_, l2)) => {
                    let (r, m2) = close_options(m, its, begin, ors);
                    Ok((r, l2, m2))
                },
            }
        } else if lp.src != l.src || lp.index != l.index {
            Err(HaltV::Overrun)
        } else {
            match s_letter(lp, m) {
                Err(h) => Err(h),
                Ok((None, l3, _)) => Err(HaltV::Error(ParseErrorV::GotEof(l3.ctx))),
                Ok((Some(x), l3, m3)) => if !advanced(l, l3) {
                    Err(HaltV::Overrun)
                } else if is_or(x) {
                    s_group(l3, m3, its, its.len() as int, ors.push((begin as usize, its.len() as usize)))
                } else {
                    s_group(l3, m3, its.push(x), begin, ors)
                },
            }
        },
    }
}

/// The rest of a rule, up to its `;` or the end of the tokens: the rule.
/// The arguments are those of [`s_group`].
pub open spec fn s_rule(
    l: LexerV,
    m: Seq<MaybeV>,
    its: Seq<MaybeV>,
    begin: int,
    ors: Seq<CfgRule>,
) -> Result<(CfgRule, LexerV, Seq<MaybeV>), HaltV>
    decreases l.src.len() - l.index,
{
    match s_peek(l) {
        Err(h) => Err(h),
        Ok((t, lp)) => if t == Some(TokenV::Op(Operator::Eol)) {
            match s_next(lp) {
                Err(h) => Err(h),
                Ok((_, l2)) => {
                    let (r, m2) = close_options(m, its, begin, ors);
                    Ok((r, l2, m2))
                },
            }
        } else {
            match s_letter(lp, m) {
                Err(h) => Err(h),
                Ok((None, l3, m3)) => {
                    let (r, m4) = close_options(m3, its, begin, ors);
                    Ok((r, l3, m4))
                },
                Ok((Some(x), l3, m3)) => if !advanced(l, l3) {
                    Err(HaltV::Overrun)
                } else if is_or(x) {
                    s_rule(l3, m3, its, its.len() as int, ors.push((begin as usize, its.len() as usize)))
                } else {
                    s_rule(l3, m3, its.push(x), begin, ors)
                },
            }
        },
    }
}

/// The rule declarations of a grammar, `name: letters;` one after the other,
/// up to the end of the tokens: the letters and the rules by name.
pub open spec fn s_rules(l: LexerV, m: Seq<MaybeV>, map: Map<Seq<char>, CfgRule>) -> Result<
    (Seq<MaybeV>, Map<Seq<char>, CfgRule>),
    HaltV,
>
    decreases l.src.len() - l.index,
{
    match s_next(l) {
        Err(h) => Err(h),
        Ok((None, _)) => Ok((m, map)),
        Ok((Some(tok), l1)) => match tok {
            TokenV::Ident(id) => match s_next(l1) {
                Err(h) => Err(h),
                Ok((None, l2)) => Err(HaltV::Error(ParseErrorV::GotEof(l2.ctx))),
                Ok((Some(t2), l2)) => if t2 != TokenV::Op(Operator::RuleDeclare) {
                    Err(HaltV::Error(ParseErrorV::UnexpectedToken(l2.ctx, "':'"@, t2)))
                } else {
                    match s_peek(l2) {
                        Err(h) => Err(h),
                        Ok((tp, l3)) => {
                            let l4: Result<LexerV, HaltV> = if tp == Some(
                                TokenV::Op(Operator::Pipe),
                            ) {
                                match s_next(l3) {
                                    Err(h) => Err(h),
                                    Ok((_, l4)) => Ok(l4),
                                }
                            } else {
                                Ok(l3)
                            };
                            match l4 {
                                Err(h) => Err(h),
                                Ok(l4) => match s_rule(l4, m, seq![], 0, seq![]) {
                                    Err(h) => Err(h),
                                    Ok((r, l5, m5)) => if !advanced(l, l5) {
                                        Err(HaltV::Overrun)
                                    } else {
                                        s_rules(l5, m5, map.insert(id, r))
                                    },
                                },
                            }
                        },
                    }
                },
            },
            _ => Err(HaltV::Error(ParseErrorV::UnexpectedToken(l1.ctx, "identifier"@, tok))),
        },
    }
}

/// The letter at `id` is made of string literals and ranges only (through
/// options, repetitions and groups). Each letter refers only to letters
/// before it, so the walk goes down.
pub open spec fn valid_term(m: Seq<MaybeV>, id: int) -> bool
    decreases id, 2int, 0int,
{
    if 0 <= id < m.len() {
        match m[id] {
            MaybeV::Known(l) => match l {
                LetterV::Rule(_) => false,
                LetterV::Term(_) => false,
                LetterV::StrLit(_) => true,
                LetterV::Range(_) => true,
                LetterV::Or(items) => valid_options(m, items, id, items.len() as int),
                LetterV::Optional(c) => c < id && valid_term(m, c as int),
                LetterV::Many(c) => c < id && valid_term(m, c as int),
                LetterV::OneOrMore(c) => c < id && valid_term(m, c as int),
                LetterV::Group(r) => valid_span(m, r.0 as int, r.1 as int, id),
            },
            MaybeV::Unknown(_) => false,
        }
    } else {
        false
    }
}

/// Every letter of the first `k` options is a valid term letter.
pub open spec fn valid_options(m: Seq<MaybeV>, items: Seq<CfgRule>, bound: int, k: int) -> bool
    decreases bound, 1int, k,
{
    if k <= 0 {
        true
    } else {
        valid_options(m, items, bound, k - 1) && valid_span(
            m,
            items[k - 1].0 as int,
            items[k - 1].1 as int,
            bound,
        )
    }
}

/// Every letter from `lo` up to `hi` is a valid term letter (each below `bound`).
pub open spec fn valid_span(m: Seq<MaybeV>, lo: int, hi: int, bound: int) -> bool
    decreases bound, 0int, hi - lo,
{
    if lo >= hi {
        true
    } else {
        0 <= lo < bound && valid_term(m, lo) && valid_span(m, lo + 1, hi, bound)
    }
}

/// The index of the first `:` in `t`.
pub open spec fn colon_at(t: Seq<char>, i: int) -> Option<int>
    decreases t.len() - i,
{
    if i < 0 || i >= t.len() {
        None
    } else if t[i] == ':' {
        Some(i)
    } else {
        colon_at(t, i + 1)
    }
}

/// The terms given as `NAME:LETTERS`, from the `i`-th on: each adds its
/// letters, which must be terminal, and binds its name, which must be new,
/// to the rule of those letters.
pub open spec fn s_terms(
    terms: Seq<Seq<char>>,
    i: int,
    m: Seq<MaybeV>,
    tmap: Map<Seq<char>, CfgRule>,
) -> Result<(Seq<MaybeV>, Map<Seq<char>, CfgRule>), HaltV>
    decreases terms.len() - i,
{
    if i < 0 || i >= terms.len() {
        Ok((m, tmap))
    } else {
        let t = terms[i];
        match colon_at(t, 0) {
            None => Err(HaltV::Error(ParseErrorV::InvalidTerm(t))),
            Some(k) => {
                let name = t.subrange(0, k);
                let value = t.subrange(k + 1, t.len() as int);
                match s_rule(start_state(value, name), m, seq![], 0, seq![]) {
                    Err(h) => Err(h),
                    Ok((r, _, m2)) => if !valid_span(m2, r.0 as int, r.1 as int, m2.len() as int) {
                        Err(HaltV::Error(ParseErrorV::TermRecurse(name)))
                    } else if tmap.contains_key(name) {
                        Err(HaltV::Error(ParseErrorV::TermDupe(name)))
                    } else {
                        s_terms(terms, i + 1, m2, tmap.insert(name, r))
                    },
                }
            },
        }
    }
}

/// A letter with its rule references looked up by name.
pub open spec fn resolve_one(x: MaybeV, map: Map<Seq<char>, CfgRule>) -> Result<
    LetterV,
    ParseErrorV,
> {
    match x {
        MaybeV::Known(l) => Ok(l),
        MaybeV::Unknown(name) => if map.contains_key(name) {
            Ok(LetterV::Rule(map[name]))
        } else {
            Err(ParseErrorV::UndefinedRule(name))
        },
    }
}

/// All letters resolved, in order; the first undefined name stops it.
pub open spec fn resolve_all(m: Seq<MaybeV>, map: Map<Seq<char>, CfgRule>) -> Result<
    Seq<LetterV>,
    ParseErrorV,
>
    decreases m.len(),
{
    if m.len() == 0 {
        Ok(seq![])
    } else {
        match resolve_all(m.drop_last(), map) {
            Err(e) => Err(e),
            Ok(ls) => match resolve_one(m.last(), map) {
                Err(e) => Err(e),
                Ok(x) => Ok(ls.push(x)),
            },
        }
    }
}

/// The grammar that the text `src` (of the file `file`) describes, with the
/// extra terms `terms` and the top-level rule named `top`.
pub open spec fn spec_parse(src: Seq<char>, file: Seq<char>, terms: Seq<Seq<char>>, top: Seq<char>) -> Result<
    CfgV,
    HaltV,
> {
    match s_rules(start_state(src, file), seq![], Map::empty()) {
        Err(h) => Err(h),
        Ok((m, map)) => match s_terms(terms, 0, m, Map::empty()) {
            Err(h) => Err(h),
            Ok((m2, tmap)) => if !map.contains_key(top) {
                Err(HaltV::Error(ParseErrorV::NoTopLevelDeclaration(top)))
            } else {
                match resolve_all(m2, map) {
                    Err(e) => Err(HaltV::Error(e)),
                    Ok(ls) => Ok(CfgV { letters: ls, top_level: map[top], terms: tmap }),
                }
            },
        },
    }
}

/// Two ASCII upper-case letters, two ASCII lower-case letters or two digits,
/// the first not after the second, may bound a range: `[A-Z]`, `[a-z]` and
/// `[0-9]` are ranges.
pub proof fn lemma_ascii_ranges_related(a: char, b: char)
    requires
        a <= b,
        ('A' <= a && b <= 'Z') || ('a' <= a && b <= 'z') || ('0' <= a && b <= '9'),
    ensures
        related(a, b),
{
}

/// A string literal or a character range, as a letter being parsed.
pub open spec fn literal_letter(x: MaybeV) -> bool {
    x matches MaybeV::Known(LetterV::StrLit(_)) || x matches MaybeV::Known(LetterV::Range(_))
}

/// Letters that are all string literals and character ranges make a valid
/// term: a term of such letters is never refused as depending on a rule.
pub proof fn lemma_literal_span_valid(m: Seq<MaybeV>, lo: int, hi: int, bound: int)
    requires
        0 <= lo <= hi <= bound <= m.len(),
        forall|k: int| lo <= k < hi ==> #[trigger] literal_letter(m[k]),
    ensures
        valid_span(m, lo, hi, bound),
    decreases hi - lo,
{
    if lo < hi {
        assert(literal_letter(m[lo]));
        assert(valid_term(m, lo));
        lemma_literal_span_valid(m, lo + 1, hi, bound);
    }
}

/// The letters of the rule `r`, as stored in `m`, are split at `|`: either
/// none of them is a `|`, or the rule is one `Or` letter of two or more
/// options.
pub open spec fn options_split(m: Seq<MaybeV>, r: CfgRule) -> bool {
    &&& r.0 <= r.1 <= m.len()
    &&& {
        ||| forall|k: int| r.0 <= k < r.1 ==> !is_or(#[trigger] m[k])
        ||| r.1 == r.0 + 1 && (m[r.0 as int] matches MaybeV::Known(LetterV::Or(items))
            && items.len() >= 2)
    }
}

proof fn lemma_close_options_split(m: Seq<MaybeV>, its: Seq<MaybeV>, begin: int, ors: Seq<CfgRule>)
    requires
        forall|k: int| 0 <= k < its.len() ==> !is_or(#[trigger] its[k]),
        close_options(m, its, begin, ors).1.len() <= usize::MAX,
    ensures
        options_split(close_options(m, its, begin, ors).1, close_options(m, its, begin, ors).0),
{
    let m2 = m + its;
    if ors.len() == 0 {
        assert forall|k: int| m.len() <= k < m2.len() implies !is_or(#[trigger] m2[k]) by {
            assert(m2[k] == its[k - m.len()]);
        }
    }
}

/// A group is split at its `|`: the letters of a `( ... )` group that parses
/// (into letters that a `usize` can count) are either free of `|`, or one
/// `Or` letter of its two or more options.
pub proof fn lemma_group_options_split(
    l: LexerV,
    m: Seq<MaybeV>,
    its: Seq<MaybeV>,
    begin: int,
    ors: Seq<CfgRule>,
)
    requires
        forall|k: int| 0 <= k < its.len() ==> !is_or(#[trigger] its[k]),
        s_group(l, m, its, begin, ors) matches Ok((_, _, m2)) && m2.len() <= usize::MAX,
    ensures
        s_group(l, m, its, begin, ors) matches Ok((r, _, m2)) && options_split(m2, r),
    decreases l.src.len() - l.index,
{
    match s_peek(l) {
        Err(_) => {},
        Ok((None, _)) => {},
        Ok((Some(t), lp)) => if t == TokenV::Op(Operator::CloseParen) {
            lemma_close_options_split(m, its, begin, ors);
        } else if lp.src != l.src || lp.index != l.index {
        } else {
            match s_letter(lp, m) {
                Err(_) => {},
                Ok((None, _, _)) => {},
                Ok((Some(x), l3, m3)) => if !advanced(l, l3) {
                } else if is_or(x) {
                    lemma_group_options_split(
                        l3,
                        m3,
                        its,
                        its.len() as int,
                        ors.push((begin as usize, its.len() as usize)),
                    );
                } else {
                    assert forall|k: int| 0 <= k < its.push(x).len() implies !is_or(
                        #[trigger] its.push(x)[k],
                    ) by {
                        if k < its.len() {
                            assert(its.push(x)[k] == its[k]);
                        }
                    }
                    lemma_group_options_split(l3, m3, its.push(x), begin, ors);
                }
            }
        },
    }
}

/// A rule is split at its `|` the same way: the letters of a rule that
/// parses are either free of `|`, or one `Or` letter of its two or more
/// options.
pub proof fn lemma_rule_options_split(
    l: LexerV,
    m: Seq<MaybeV>,
    its: Seq<MaybeV>,
    begin: int,
    ors: Seq<CfgRule>,
)
    requires
        forall|k: int| 0 <= k < its.len() ==> !is_or(#[trigger] its[k]),
        s_rule(l, m, its, begin, ors) matches Ok((_, _, m2)) && m2.len() <= usize::MAX,
    ensures
        s_rule(l, m, its, begin, ors) matches Ok((r, _, m2)) && options_split(m2, r),
    decreases l.src.len() - l.index,
{
    match s_peek(l) {
        Err(_) => {},
        Ok((t, lp)) => if t == Some(TokenV::Op(Operator::Eol)) {
            lemma_close_options_split(m, its, begin, ors);
        } else {
            match s_letter(lp, m) {
                Err(_) => {},
                Ok((None, _, m3)) => {
                    lemma_close_options_split(m3, its, begin, ors);
                },
                Ok((Some(x), l3, m3)) => if !advanced(l, l3) {
                } else if is_or(x) {
                    lemma_rule_options_split(
                        l3,
                        m3,
                        its,
                        its.len() as int,
                        ors.push((begin as usize, its.len() as usize)),
                    );
                } else {
                    assert forall|k: int| 0 <= k < its.push(x).len() implies !is_or(
                        #[trigger] its.push(x)[k],
                    ) by {
                        if k < its.len() {
                            assert(its.push(x)[k] == its[k]);
                        }
                    }
                    lemma_rule_options_split(l3, m3, its.push(x), begin, ors);
                }
            }
        },
    }
}

} // verus!
