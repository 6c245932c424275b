//! The lexer of the grammar notation.
//!
//! A lexer walks a character buffer and hands out one token per call of
//! [`Lexer::next`]. What one call does is the spec function [`lex_step`]:
//! it skips white space and comments (from `#` to the end of the line),
//! reads a number, a quoted string, an identifier or a one-character
//! operator, and otherwise gives nothing. The position in the context is
//! moved over the text read ([`advance`]): a new line starts the next line
//! at column 1, any other character moves one column on. A scan that runs
//! past the end of the buffer (a number, identifier or quoted string that
//! the buffer ends inside of) is where the lexer cannot go on: `lex_step`
//! gives `None` there, and [`Lexer::next`] requires that this does not
//! happen.
use vstd::prelude::*;

use crate::text::{
    ascii_letter, chars_of, decimal_text, is_numeric, is_whitespace, numeric, parse_decimal,
    parse_usize, push_decimal, push_str, string_from_chars, sub_chars, whitespace,
};

verus! {

/// The one-character operators of the grammar notation.
#[derive(Clone, Copy, Debug, PartialEq, Eq, Structural)]
pub enum Operator {
    Star,
    Plus,
    QuestionMark,
    Pipe,
    OpenParen,
    CloseParen,
    OpenRange,
    CloseRange,
    RangeTo,
    RuleDeclare,
    Eol,
}

/// A token of the grammar notation.
#[derive(Clone, Debug)]
pub enum Token {
    /// A quoted string, without its quotes; escapes are kept as written.
    String(String),
    /// A run of decimal digits.
    Num(usize),
    /// An identifier.
    Ident(String),
    /// An operator.
    Op(Operator),
}

/// A token, with its text as a sequence of characters.
pub enum TokenV {
    String(Seq<char>),
    Num(usize),
    Ident(Seq<char>),
    Op(Operator),
}

impl View for Token {
    type V = TokenV;

    open spec fn view(&self) -> TokenV {
        match self {
            Token::String(s) => TokenV::String(s@),
            Token::Num(n) => TokenV::Num(*n),
            Token::Ident(s) => TokenV::Ident(s@),
            Token::Op(o) => TokenV::Op(*o),
        }
    }
}

/// The view of an optional token.
pub open spec fn token_opt_view(t: Option<Token>) -> Option<TokenV> {
    match t {
        Some(tok) => Some(tok@),
        None => None,
    }
}

/// Where the lexer stands: the file name, the line and the column.
#[derive(Clone, Debug)]
pub struct LexerCtx {
    pub line: usize,
    pub column: usize,
    pub file: String,
}

/// A lexer context, with the file name as characters.
pub struct CtxV {
    pub line: usize,
    pub column: usize,
    pub file: Seq<char>,
}

impl View for LexerCtx {
    type V = CtxV;

    open spec fn view(&self) -> CtxV {
        CtxV { line: self.line, column: self.column, file: self.file@ }
    }
}

/// `file:line:column`, the way a position is written in messages.
pub open spec fn ctx_text(c: CtxV) -> Seq<char> {
    c.file + seq![':'] + decimal_text(c.line as nat) + seq![':'] + decimal_text(c.column as nat)
}

impl LexerCtx {
    /// A copy of this context.
    pub fn duplicate(&self) -> (c: LexerCtx)
        ensures
            c@ == self@,
    {
        LexerCtx { line: self.line, column: self.column, file: self.file.clone() }
    }

    /// The position as `file:line:column`.
    pub fn to_text(&self) -> (s: String)
        ensures
            s@ == ctx_text(self@),
    {
        let mut out: Vec<char> = Vec::new();
        push_str(&mut out, self.file.as_str());
        out.push(':');
        push_decimal(&mut out, self.line);
        out.push(':');
        push_decimal(&mut out, self.column);
        string_from_chars(&out)
    }
}

/// The state of a lexer: its buffer, its index into it and its context.
pub struct LexerV {
    pub src: Seq<char>,
    pub index: int,
    pub ctx: CtxV,
}

/// Lexes a buffer of characters.
pub struct Lexer {
    pub ctx: LexerCtx,
    src: Vec<char>,
    index: usize,
}

impl View for Lexer {
    type V = LexerV;

    closed spec fn view(&self) -> LexerV {
        LexerV { src: self.src@, index: self.index as int, ctx: self.ctx@ }
    }
}

/// One more than `n`, or `n` where it is `usize::MAX` already.
pub open spec fn next_count(n: usize) -> usize {
    if n < usize::MAX {
        (n + 1) as usize
    } else {
        n
    }
}

/// The position after the character `ch`: a new line starts the next line
/// at column 1; any other character moves one column on.
pub open spec fn step_pos(c: CtxV, ch: char) -> CtxV {
    if ch == '\n' {
        CtxV { line: next_count(c.line), column: 1, file: c.file }
    } else {
        CtxV { line: c.line, column: next_count(c.column), file: c.file }
    }
}

/// The position after reading the characters `s` from the position `c`.
pub open spec fn advance(c: CtxV, s: Seq<char>) -> CtxV
    decreases s.len(),
{
    if s.len() == 0 {
        c
    } else {
        step_pos(advance(c, s.drop_last()), s.last())
    }
}

/// A character that may start an identifier.
pub open spec fn ident_start(c: char) -> bool {
    ascii_letter(c) || c == '_'
}

/// A character that may continue an identifier.
pub open spec fn ident_char(c: char) -> bool {
    ident_start(c) || numeric(c)
}

/// The operator that the character `c` stands for, if any.
pub open spec fn operator_of(c: char) -> Option<Operator> {
    if c == '*' { Some(Operator::Star) }
    else if c == '+' { Some(Operator::Plus) }
    else if c == '?' { Some(Operator::QuestionMark) }
    else if c == '|' { Some(Operator::Pipe) }
    else if c == '(' { Some(Operator::OpenParen) }
    else if c == ')' { Some(Operator::CloseParen) }
    else if c == '[' { Some(Operator::OpenRange) }
    else if c == ']' { Some(Operator::CloseRange) }
    else if c == '-' { Some(Operator::RangeTo) }
    else if c == ':' { Some(Operator::RuleDeclare) }
    else if c == ';' { Some(Operator::Eol) }
    else { None }
}

/// The first index from `i` on that holds a new line, if any.
pub open spec fn newline_from(src: Seq<char>, i: int) -> Option<int>
    decreases src.len() - i,
{
    if i < 0 || i >= src.len() {
        None
    } else if src[i] == '\n' {
        Some(i)
    } else {
        newline_from(src, i + 1)
    }
}

/// The end of the run of numeric characters that starts at `i`.
pub open spec fn numeric_end(src: Seq<char>, i: int) -> int
    decreases src.len() - i,
{
    if 0 <= i < src.len() && numeric(src[i]) {
        numeric_end(src, i + 1)
    } else {
        i
    }
}

/// The end of the run of identifier characters that starts at `i`.
pub open spec fn ident_end(src: Seq<char>, i: int) -> int
    decreases src.len() - i,
{
    if 0 <= i < src.len() && ident_char(src[i]) {
        ident_end(src, i + 1)
    } else {
        i
    }
}

/// The index of the quote `delim` that closes a string whose text starts at
/// `i`; a backslash makes the scan step over the character after it. `None`
/// where the scan reaches the end of the buffer first.
pub open spec fn quote_end(src: Seq<char>, i: int, delim: char) -> Option<int>
    decreases src.len() + 1 - i,
{
    if i < 0 || i >= src.len() {
        None
    } else if src[i] == delim {
        Some(i)
    } else if src[i] == '\\' {
        quote_end(src, i + 2, delim)
    } else {
        quote_end(src, i + 1, delim)
    }
}

/// One call of the lexer on `src` from index `i`: the token, if any, and
/// the index after it; `None` where a scan runs past the end of `src`.
/// White space and comments (from `#` to the end of the line) are skipped.
pub open spec fn lex_step(src: Seq<char>, i: int) -> Option<(Option<TokenV>, int)>
    decreases src.len() - i,
{
    if i < 0 || i >= src.len() {
        Some((None, i))
    } else {
        let c = src[i];
        if c == '#' {
            match newline_from(src, i) {
                Some(j) => {
                    proof {
                        lemma_newline_from_bounds(src, i);
                    }
                    lex_step(src, j + 1)
                },
                None => Some((None, src.len() as int)),
            }
        } else if whitespace(c) {
            lex_step(src, i + 1)
        } else if numeric(c) {
            let j = numeric_end(src, i);
            if j >= src.len() {
                None
            } else {
                let token = match parse_usize(src.subrange(i, j)) {
                    Some(n) => Some(TokenV::Num(n)),
                    None => None,
                };
                Some((token, j))
            }
        } else if c == '"' || c == '\'' {
            match quote_end(src, i + 1, c) {
                Some(j) => Some((Some(TokenV::String(src.subrange(i + 1, j))), j + 1)),
                None => None,
            }
        } else if ident_start(c) {
            let j = ident_end(src, i);
            if j >= src.len() {
                None
            } else {
                Some((Some(TokenV::Ident(src.subrange(i, j))), j))
            }
        } else {
            match operator_of(c) {
                Some(o) => Some((Some(TokenV::Op(o)), i + 1)),
                None => Some((None, i)),
            }
        }
    }
}

/// One call of [`Lexer::next`] on a lexer in state `l`: the token and the
/// state after it, whose position is moved over the text read; or `None`
/// where the lexer would run past its buffer.
pub open spec fn next_spec(l: LexerV) -> Option<(Option<TokenV>, LexerV)> {
    match lex_step(l.src, l.index) {
        Some((t, j)) => Some(
            (
                t,
                LexerV {
                    src: l.src,
                    index: j,
                    ctx: if l.index < j {
                        advance(l.ctx, l.src.subrange(l.index, j))
                    } else {
                        l.ctx
                    },
                },
            ),
        ),
        None => None,
    }
}

/// One call of [`Lexer::peek_next`]: the token of [`next_spec`], with the
/// lexer left as it was.
pub open spec fn peek_spec(l: LexerV) -> Option<(Option<TokenV>, LexerV)> {
    match next_spec(l) {
        Some((t, _)) => Some((t, l)),
        None => None,
    }
}

/// The lexer state at the start of `src`, for the file `file`.
pub open spec fn start_state(src: Seq<char>, file: Seq<char>) -> LexerV {
    LexerV { src, index: 0, ctx: CtxV { line: 1, column: 1, file } }
}

/// A token was read only by moving forward, and not past the end.
pub proof fn lemma_lex_step_progress(src: Seq<char>, i: int)
    requires
        lex_step(src, i) is Some,
        0 <= i,
    ensures
        ({
            let (t, j) = lex_step(src, i)->0;
            &&& i <= j
            &&& (i <= src.len() ==> j <= src.len())
            &&& (t is Some ==> i < j)
        }),
    decreases src.len() - i,
{
    if 0 <= i < src.len() {
        let c = src[i];
        if c == '#' {
            lemma_newline_from_bounds(src, i);
            if let Some(j) = newline_from(src, i) {
                lemma_lex_step_progress(src, j + 1);
            }
        } else if whitespace(c) {
            lemma_lex_step_progress(src, i + 1);
        } else if numeric(c) {
            lemma_numeric_end_bounds(src, i);
        } else if c == '"' || c == '\'' {
            lemma_quote_end_bounds(src, i + 1, c);
        } else if ident_start(c) {
            lemma_ident_end_bounds(src, i);
        }
    }
}

/// Moving over text keeps the file name.
pub proof fn lemma_advance_file(c: CtxV, s: Seq<char>)
    ensures
        advance(c, s).file == c.file,
    decreases s.len(),
{
    if s.len() > 0 {
        lemma_advance_file(c, s.drop_last());
    }
}

/// Moving over one more character is one more step.
pub proof fn lemma_advance_push(c: CtxV, s: Seq<char>, ch: char)
    ensures
        advance(c, s.push(ch)) == step_pos(advance(c, s), ch),
{
    assert(s.push(ch).drop_last() =~= s);
}

proof fn lemma_ident_end_run(src: Seq<char>, i: int)
    requires
        0 <= i <= src.len(),
    ensures
        i <= ident_end(src, i) <= src.len(),
        forall|k: int| i <= k < ident_end(src, i) ==> #[trigger] ident_char(src[k]),
        ident_end(src, i) < src.len() ==> !ident_char(src[ident_end(src, i)]),
    decreases src.len() - i,
{
    if i < src.len() && ident_char(src[i]) {
        lemma_ident_end_run(src, i + 1);
    }
}

/// An identifier token is the longest run of identifier characters (ASCII
/// letters, `_`, numeric characters) from an identifier-start character:
/// read as `s` up to index `j`, `s` is the text just before `j`, it starts
/// with a letter or `_`, all its characters are identifier characters, and
/// the character at `j` is not one.
pub proof fn lemma_ident_token(src: Seq<char>, i: int)
    requires
        0 <= i,
        lex_step(src, i) matches Some((Some(TokenV::Ident(_)), _)),
    ensures
        ({
            let (t, j) = lex_step(src, i)->0;
            let s = t->0->Ident_0;
            let start = j - s.len();
            &&& i <= start < j < src.len()
            &&& s == src.subrange(start, j)
            &&& ident_start(s[0])
            &&& forall|k: int| start <= k < j ==> #[trigger] ident_char(src[k])
            &&& !ident_char(src[j])
        }),
    decreases src.len() - i,
{
    if i < src.len() {
        let c = src[i];
        if c == '#' {
            lemma_newline_from_bounds(src, i);
            let j = newline_from(src, i)->0;
            lemma_ident_token(src, j + 1);
        } else if whitespace(c) {
            lemma_ident_token(src, i + 1);
        } else if numeric(c) {
        } else if c == '"' || c == '\'' {
        } else if ident_start(c) {
            lemma_ident_end_run(src, i + 1);
            assert(ident_char(c));
            let j = ident_end(src, i);
            assert(src.subrange(i, j)[0] == c);
        }
    }
}

/// A quote at or after `i` whose string runs past the end of `src`.
pub open spec fn open_quote_from(src: Seq<char>, i: int) -> bool {
    exists|j: int|
        i <= j < src.len() && (src[j] == '"' || src[j] == '\'') && #[trigger] quote_end(
            src,
            j + 1,
            src[j],
        ) is None
}

proof fn lemma_newline_found(src: Seq<char>, i: int)
    requires
        0 <= i < src.len(),
        src.last() == '\n',
    ensures
        newline_from(src, i) is Some,
    decreases src.len() - i,
{
    if src[i] != '\n' {
        lemma_newline_found(src, i + 1);
    }
}

proof fn lemma_numeric_stops(src: Seq<char>, i: int)
    requires
        0 <= i < src.len(),
        src.last() == '\n',
    ensures
        numeric_end(src, i) < src.len(),
    decreases src.len() - i,
{
    if numeric(src[i]) {
        lemma_numeric_stops(src, i + 1);
    }
}

proof fn lemma_ident_stops(src: Seq<char>, i: int)
    requires
        0 <= i < src.len(),
        src.last() == '\n',
    ensures
        ident_end(src, i) < src.len(),
    decreases src.len() - i,
{
    if ident_char(src[i]) {
        lemma_ident_stops(src, i + 1);
    }
}

/// A text that ends in a new line is read without running past its end,
/// except inside a quoted string that is not closed: a read fails only
/// where such a string starts at or after where it reads.
pub proof fn lemma_newline_end_reads(src: Seq<char>, i: int)
    requires
        src.len() > 0,
        src.last() == '\n',
        0 <= i,
    ensures
        lex_step(src, i) is None ==> open_quote_from(src, i),
    decreases src.len() - i,
{
    if i < src.len() {
        let c = src[i];
        if c == '#' {
            lemma_newline_found(src, i);
            lemma_newline_from_bounds(src, i);
            let j = newline_from(src, i)->0;
            lemma_newline_end_reads(src, j + 1);
            if lex_step(src, i) is None {
                let k = choose|k: int|
                    j + 1 <= k < src.len() && (src[k] == '"' || src[k] == '\'') && #[trigger] quote_end(
                        src,
                        k + 1,
                        src[k],
                    ) is None;
                assert(quote_end(src, k + 1, src[k]) is None);
            }
        } else if whitespace(c) {
            lemma_newline_end_reads(src, i + 1);
            if lex_step(src, i) is None {
                let k = choose|k: int|
                    i + 1 <= k < src.len() && (src[k] == '"' || src[k] == '\'') && #[trigger] quote_end(
                        src,
                        k + 1,
                        src[k],
                    ) is None;
                assert(quote_end(src, k + 1, src[k]) is None);
            }
        } else if numeric(c) {
            lemma_numeric_stops(src, i);
        } else if c == '"' || c == '\'' {
            if lex_step(src, i) is None {
                assert(quote_end(src, i + 1, src[i]) is None);
            }
        } else if ident_start(c) {
            lemma_ident_stops(src, i);
        }
    }
}

/// Moving over `a` and then over `b` is moving over `a + b`.
pub proof fn lemma_advance_concat(c: CtxV, a: Seq<char>, b: Seq<char>)
    ensures
        advance(c, a + b) == advance(advance(c, a), b),
    decreases b.len(),
{
    if b.len() == 0 {
        assert(a + b =~= a);
    } else {
        assert((a + b).drop_last() =~= a + b.drop_last());
        lemma_advance_concat(c, a, b.drop_last());
    }
}

/// Reads from the start of a buffer keep the position at the text read so
/// far: after any number of reads (and peeks) from `start_state`, the line
/// is one more than the new lines read and the column one more than the
/// characters read since the last of them, as [`advance`] counts them.
pub proof fn lemma_next_keeps_position(l: LexerV, c0: CtxV)
    requires
        next_spec(l) is Some,
        0 <= l.index <= l.src.len(),
        l.ctx == advance(c0, l.src.subrange(0, l.index)),
    ensures
        ({
            let (_, l2) = next_spec(l)->0;
            l2.ctx == advance(c0, l2.src.subrange(0, l2.index))
        }),
{
    lemma_lex_step_progress(l.src, l.index);
    let (_, j) = lex_step(l.src, l.index)->0;
    if l.index < j {
        assert(l.src.subrange(0, j) =~= l.src.subrange(0, l.index) + l.src.subrange(l.index, j));
        lemma_advance_concat(c0, l.src.subrange(0, l.index), l.src.subrange(l.index, j));
    }
}

/// A read moves forward, stays within the buffer and keeps the buffer and
/// the file name; a token is read only by moving.
pub proof fn lemma_next_progress(l: LexerV)
    requires
        next_spec(l) is Some,
        0 <= l.index <= l.src.len(),
    ensures
        ({
            let (t, l2) = next_spec(l)->0;
            &&& l2.src == l.src
            &&& l2.ctx.file == l.ctx.file
            &&& l.index <= l2.index <= l.src.len()
            &&& (t is Some ==> l.index < l2.index)
        }),
{
    lemma_lex_step_progress(l.src, l.index);
    let (_, j) = lex_step(l.src, l.index)->0;
    if l.index < j {
        lemma_advance_file(l.ctx, l.src.subrange(l.index, j));
    }
}

/// At the end of its buffer the lexer gives nothing and stays where it is.
pub proof fn lemma_next_at_end(l: LexerV)
    requires
        l.index >= l.src.len(),
    ensures
        next_spec(l) == Some((None::<TokenV>, l)),
{
}

/// A peek leaves the lexer as it was, so reading after a peek gives the
/// token that the peek saw.
pub proof fn lemma_next_after_peek(l: LexerV)
    requires
        peek_spec(l) is Some,
    ensures
        ({
            let (t, lp) = peek_spec(l)->0;
            &&& lp == l
            &&& next_spec(lp) matches Some((t2, _)) && t2 == t
        }),
{
}

/// The new line that a scan from `i` finds lies at or after `i`.
pub proof fn lemma_newline_from_bounds(src: Seq<char>, i: int)
    ensures
        newline_from(src, i) matches Some(j) ==> i <= j < src.len() && src[j] == '\n',
    decreases src.len() - i,
{
    if 0 <= i < src.len() && src[i] != '\n' {
        lemma_newline_from_bounds(src, i + 1);
    }
}

proof fn lemma_numeric_end_bounds(src: Seq<char>, i: int)
    requires
        0 <= i,
    ensures
        i <= numeric_end(src, i),
        i <= src.len() ==> numeric_end(src, i) <= src.len(),
        0 <= i < src.len() && numeric(src[i]) ==> i < numeric_end(src, i),
    decreases src.len() - i,
{
    if 0 <= i < src.len() && numeric(src[i]) {
        lemma_numeric_end_bounds(src, i + 1);
    }
}

proof fn lemma_ident_end_bounds(src: Seq<char>, i: int)
    requires
        0 <= i,
    ensures
        i <= ident_end(src, i),
        i <= src.len() ==> ident_end(src, i) <= src.len(),
        0 <= i < src.len() && ident_char(src[i]) ==> i < ident_end(src, i),
    decreases src.len() - i,
{
    if 0 <= i < src.len() && ident_char(src[i]) {
        lemma_ident_end_bounds(src, i + 1);
    }
}

proof fn lemma_quote_end_bounds(src: Seq<char>, i: int, delim: char)
    ensures
        quote_end(src, i, delim) matches Some(j) ==> i <= j < src.len() && 0 <= j,
    decreases src.len() + 1 - i,
{
    if 0 <= i < src.len() && src[i] != delim {
        if src[i] == '\\' {
            lemma_quote_end_bounds(src, i + 2, delim);
        } else {
            lemma_quote_end_bounds(src, i + 1, delim);
        }
    }
}

fn operator_for(c: char) -> (o: Option<Operator>)
    ensures
        o == operator_of(c),
{
    if c == '*' { Some(Operator::Star) }
    else if c == '+' { Some(Operator::Plus) }
    else if c == '?' { Some(Operator::QuestionMark) }
    else if c == '|' { Some(Operator::Pipe) }
    else if c == '(' { Some(Operator::OpenParen) }
    else if c == ')' { Some(Operator::CloseParen) }
    else if c == '[' { Some(Operator::OpenRange) }
    else if c == ']' { Some(Operator::CloseRange) }
    else if c == '-' { Some(Operator::RangeTo) }
    else if c == ':' { Some(Operator::RuleDeclare) }
    else if c == ';' { Some(Operator::Eol) }
    else { None }
}

/// Whether `ch` may start an identifier: an ASCII letter or `_`.
pub fn is_ident_start(ch: char) -> (b: bool)
    ensures
        b == ident_start(ch),
{
    ('a' <= ch && ch <= 'z') || ('A' <= ch && ch <= 'Z') || ch == '_'
}

/// Whether `ch` may continue an identifier: a start character or a numeric one.
pub fn is_ident(ch: char) -> (b: bool)
    ensures
        b == ident_char(ch),
{
    is_ident_start(ch) || is_numeric(ch)
}

impl Lexer {
    /// A lexer at the start of `src`, at line 1, column 1 of `filename`.
    pub fn new(src: &str, filename: &str) -> (l: Lexer)
        ensures
            l@ == start_state(src@, filename@),
    {
        Lexer {
            ctx: LexerCtx { line: 1, column: 1, file: filename.to_owned() },
            src: chars_of(src),
            index: 0,
        }
    }

    /// A copy of the lexer's context.
    pub fn ctx(&self) -> (c: LexerCtx)
        ensures
            c@ == self@.ctx,
    {
        self.ctx.duplicate()
    }

    /// Moves one character on, and the position with it: the position stays
    /// the one reached from `c0` over the text from index `a`.
    fn bump(&mut self, Ghost(c0): Ghost<CtxV>, Ghost(a): Ghost<int>)
        requires
            old(self).index < old(self).src.len(),
            0 <= a <= old(self).index,
            old(self).ctx@ == advance(c0, old(self).src@.subrange(a, old(self).index as int)),
        ensures
            final(self).src@ == old(self).src@,
            final(self).index == old(self).index + 1,
            final(self).ctx@ == advance(c0, old(self).src@.subrange(a, final(self).index as int)),
    {
        let ghost k = self.index as int;
        proof {
            assert(self.src@.subrange(a, k + 1) =~= self.src@.subrange(a, k).push(self.src@[k]));
            lemma_advance_push(c0, self.src@.subrange(a, k), self.src@[k]);
        }
        if self.src[self.index] == '\n' {
            if self.ctx.line < usize::MAX {
                self.ctx.line = self.ctx.line + 1;
            }
            self.ctx.column = 1;
        } else {
            if self.ctx.column < usize::MAX {
                self.ctx.column = self.ctx.column + 1;
            }
        }
        self.index = self.index + 1;
    }

    /// One call of the lexer, or `Err` where it would run past its buffer
    /// (the state is then left unspecified).
    #[verifier::loop_isolation(false)]
    pub fn next_checked(&mut self) -> (r: Result<Option<Token>, ()>)
        ensures
            match next_spec(old(self)@) {
                Some((t, l)) => r is Ok && token_opt_view(r->Ok_0) == t && final(self)@ == l,
                None => r is Err,
            },
    {
        let ghost l0 = self@;
        if self.index >= self.src.len() {
            return Ok(None);
        }
        assert(l0.src.subrange(l0.index, l0.index) =~= Seq::<char>::empty());
        while self.index < self.src.len()
            invariant
                self.src@ == l0.src,
                0 <= l0.index <= self.index <= self.src@.len(),
                self.ctx@ == advance(l0.ctx, l0.src.subrange(l0.index, self.index as int)),
                lex_step(l0.src, self.index as int) == lex_step(l0.src, l0.index),
            decreases self.src@.len() - self.index,
        {
            let c = self.src[self.index];
            if c == '#' {
                let ghost here = self.index as int;
                while self.index < self.src.len() && self.src[self.index] != '\n'
                    invariant
                        self.src@ == l0.src,
                        0 <= l0.index <= here <= self.index <= self.src@.len(),
                        self.ctx@ == advance(l0.ctx, l0.src.subrange(l0.index, self.index as int)),
                        newline_from(l0.src, here) == newline_from(l0.src, self.index as int),
                    decreases self.src@.len() - self.index,
                {
                    self.bump(Ghost(l0.ctx), Ghost(l0.index));
                }
                if self.index >= self.src.len() {
                    return Ok(None);
                }
                self.bump(Ghost(l0.ctx), Ghost(l0.index));
                continue ;
            }
            if is_whitespace(c) {
                self.bump(Ghost(l0.ctx), Ghost(l0.index));
                continue ;
            }
            if is_numeric(c) {
                let start: usize = self.index;
                while self.index < self.src.len() && is_numeric(self.src[self.index])
                    invariant
                        self.src@ == l0.src,
                        0 <= l0.index <= start <= self.index <= self.src@.len(),
                        self.ctx@ == advance(l0.ctx, l0.src.subrange(l0.index, self.index as int)),
                        numeric_end(l0.src, start as int) == numeric_end(
                            l0.src,
                            self.index as int,
                        ),
                    decreases self.src@.len() - self.index,
                {
                    self.bump(Ghost(l0.ctx), Ghost(l0.index));
                }
                if self.index >= self.src.len() {
                    return Err(());
                }
                let digits = sub_chars(&self.src, start, self.index);
                match parse_decimal(&digits) {
                    Some(n) => {
                        return Ok(Some(Token::Num(n)));
                    },
                    None => {
                        return Ok(None);
                    },
                }
            }
            if c == '"' || c == '\'' {
                let delim = c;
                self.bump(Ghost(l0.ctx), Ghost(l0.index));
                let start: usize = self.index;
                while self.index < self.src.len() && self.src[self.index] != delim
                    invariant
                        self.src@ == l0.src,
                        0 <= l0.index <= start <= self.index <= self.src@.len(),
                        self.ctx@ == advance(l0.ctx, l0.src.subrange(l0.index, self.index as int)),
                        quote_end(l0.src, start as int, delim) == quote_end(
                            l0.src,
                            self.index as int,
                            delim,
                        ),
                    decreases self.src@.len() - self.index,
                {
                    if self.src[self.index] == '\\' {
                        // stepping over the escaped character; at the last
                        // character this runs off the end either way
                        let ghost k = self.index as int;
                        assert(quote_end(l0.src, k, delim) == quote_end(l0.src, k + 2, delim));
                        self.bump(Ghost(l0.ctx), Ghost(l0.index));
                        if self.index < self.src.len() {
                            self.bump(Ghost(l0.ctx), Ghost(l0.index));
                        } else {
                            assert(quote_end(l0.src, k + 2, delim) is None);
                        }
                    } else {
                        self.bump(Ghost(l0.ctx), Ghost(l0.index));
                    }
                }
                if self.index >= self.src.len() {
                    return Err(());
                }
                let text = sub_chars(&self.src, start, self.index);
                self.bump(Ghost(l0.ctx), Ghost(l0.index));
                return Ok(Some(Token::String(string_from_chars(&text))));
            }
            if is_ident_start(c) {
                let start: usize = self.index;
                while self.index < self.src.len() && is_ident(self.src[self.index])
                    invariant
                        self.src@ == l0.src,
                        0 <= l0.index <= start <= self.index <= self.src@.len(),
                        self.ctx@ == advance(l0.ctx, l0.src.subrange(l0.index, self.index as int)),
                        ident_end(l0.src, start as int) == ident_end(l0.src, self.index as int),
                    decreases self.src@.len() - self.index,
                {
                    self.bump(Ghost(l0.ctx), Ghost(l0.index));
                }
                if self.index >= self.src.len() {
                    return Err(());
                }
                let text = sub_chars(&self.src, start, self.index);
                return Ok(Some(Token::Ident(string_from_chars(&text))));
            }
            match operator_for(c) {
                Some(o) => {
                    self.bump(Ghost(l0.ctx), Ghost(l0.index));
                    return Ok(Some(Token::Op(o)));
                },
                None => {
                    return Ok(None);
                },
            }
        }
        Ok(None)
    }

    /// The next token, if any. The lexer must not run past its buffer here:
    /// the caller rules out the inputs on which it would.
    pub fn next(&mut self) -> (t: Option<Token>)
        requires
            next_spec(old(self)@) is Some,
        ensures
            next_spec(old(self)@) == Some((token_opt_view(t), final(self)@)),
    {
        match self.next_checked() {
            Ok(t) => t,
            Err(_) => {
                None
            },
        }
    }

    /// The next token, if any, without moving past it: the lexer, its
    /// position included, is left as it was.
    pub fn peek_next(&mut self) -> (t: Option<Token>)
        requires
            next_spec(old(self)@) is Some,
        ensures
            peek_spec(old(self)@) == Some((token_opt_view(t), final(self)@)),
    {
        let old_idx = self.index;
        let old_ctx = self.ctx.duplicate();
        let token = self.next();
        self.index = old_idx;
        self.ctx = old_ctx;
        token
    }

    /// [`Lexer::peek_next`], or `Err` where the lexer would run past its
    /// buffer.
    pub fn peek_checked(&mut self) -> (r: Result<Option<Token>, ()>)
        ensures
            match peek_spec(old(self)@) {
                Some((t, l)) => r is Ok && token_opt_view(r->Ok_0) == t && final(self)@ == l,
                None => r is Err,
            },
    {
        let old_idx = self.index;
        let old_ctx = self.ctx.duplicate();
        let token = self.next_checked();
        self.index = old_idx;
        self.ctx = old_ctx;
        token
    }
}

} // verus!
