//! Generating random text from a parsed grammar.
//!
//! The generator draws its random numbers through [`crate::draws::Draws`], which records
//! each draw (for proofs only). What it writes is stated exactly as a walk
//! of the grammar over the recorded draws ([`run_letter`], [`run_code`]):
//! which option an `|` takes, how often `?`, `*` and `+` repeat (each draw
//! one in two), how many words a built-in identifier has (each further one
//! one in five), which character a `[...]` letter writes. The walk stops
//! with the step limit only after `u64::MAX` steps. Every text written is
//! also in the language of the grammar, given by derivation trees
//! ([`Tree`], [`valid`], [`in_language`]).
use vstd::prelude::*;

use crate::cfg::{
    chars_equal_str, lemma_or_refs, refs_in, span_in, Cfg, CfgLetter, CfgRange, CfgRule, CfgV,
    LetterV,
};
use crate::draws::{choose_from, random_ratio, random_u8, Draw, Draws};
use crate::text::{decimal_text, push_decimal, push_str, string_from_chars};

verus! {

/// The Unicode scalar value of `c`.
pub open spec fn scalar_value(c: char) -> int {
    c as int
}

/// Calls `char::from_u32`: the character whose scalar value is `u`, or
/// nothing where no character has that value (a surrogate, or a value above
/// `0x10FFFF`).
#[verifier::external_body]
fn char_of(u: u32) -> (r: Option<char>)
    ensures
        r matches Some(c) ==> c as int == u as int,
        r is None ==> forall|c: char| #[trigger] scalar_value(c) != u as int,
{
    char::from_u32(u)
}

/// The characters from `from` up to `to`, both included, in order.
fn char_range(from: char, to: char) -> (v: Vec<char>)
    ensures
        forall|c: char| v@.contains(c) <==> (from <= c && c <= to),
        v@ == char_seq(from as int, to as int),
{
    let mut v: Vec<char> = Vec::new();
    let lo: u32 = from as u32;
    let hi: u32 = to as u32;
    if hi < lo {
        return v;
    }
    assert(v@ =~= char_seq(lo as int, lo - 1));
    let mut u: u32 = lo;
    while u <= hi
        invariant
            lo as int == from as int,
            hi as int == to as int,
            hi <= 0x10FFFF,
            lo <= u <= hi + 1,
            forall|c: char| v@.contains(c) <==> (from <= c && (c as int) < u),
            v@ == char_seq(lo as int, u - 1),
        decreases hi + 1 - u,
    {
        let ghost prev = v@;
        match char_of(u) {
            Some(c) => {
                v.push(c);
                proof {
                    assert(scalar_value(c) == u as int);
                    assert((choose|x: char| scalar_value(x) == u as int) == c);
                    assert forall|d: char| v@.contains(d) <==> (from <= d && (d as int) < u + 1) by {
                        if d == c {
                            assert(v@[prev.len() as int] == d);
                        }
                        if v@.contains(d) && d != c {
                            let i = choose|i: int| 0 <= i < v@.len() && v@[i] == d;
                        }
                        if prev.contains(d) {
                            let i = choose|i: int| 0 <= i < prev.len() && prev[i] == d;
                            assert(v@[i] == d);
                        }
                    }
                }
            },
            None => {
                assert forall|d: char| v@.contains(d) <==> (from <= d && (d as int) < u + 1) by {
                    assert(scalar_value(d) != u as int);
                }
                assert(!exists|x: char| scalar_value(x) == u as int);
                assert(v@ =~= char_seq(lo as int, u as int));
            },
        }
        u = u + 1;
    }
    v
}

/// Why generation stopped.
#[derive(Debug)]
pub enum GenerateError {
    /// A term that the grammar does not define and that is not built in.
    UnknownTerm(String),
    /// The walk took more steps than a `u64` counts.
    StepLimit,
}

/// The texts of a sequence of string slices.
pub open spec fn strs_view(v: Seq<&str>) -> Seq<Seq<char>> {
    Seq::new(v.len(), |i: int| v[i]@)
}

/// The words of a built-in `IDENT`.
pub open spec fn ident_words() -> Seq<Seq<char>> {
    seq![
        "foo"@, "bar"@, "baz"@, "foobar"@, "x"@, "y"@, "a"@, "b"@, "node"@, "item"@, "elem"@,
        "i"@, "index"@, "str"@, "out"@, "buf"@, "ptr"@, "get"@, "set"@,
    ]
}

/// The words of a built-in `CAPS_IDENT`.
pub open spec fn caps_words() -> Seq<Seq<char>> {
    seq!["FOO"@, "BAR"@, "BAZ"@, "FOOBAR"@, "VAR"@, "X"@, "Y"@, "A"@, "B"@]
}

/// The words of a built-in `TYPE_IDENT`.
pub open spec fn type_words() -> Seq<Seq<char>> {
    seq!["Foo"@, "Bar"@, "Baz"@, "Foobar"@, "Node"@, "List"@, "X"@, "Y"@, "A"@, "B"@]
}

/// The words of `ws` at the indices `picks`, each after the first one
/// preceded by `sep`.
pub open spec fn word_concat(ws: Seq<Seq<char>>, sep: Seq<char>, picks: Seq<int>) -> Seq<char>
    decreases picks.len(),
{
    if picks.len() == 0 {
        seq![]
    } else if picks.len() == 1 {
        ws[picks[0]]
    } else {
        word_concat(ws, sep, picks.drop_last()) + sep + ws[picks.last()]
    }
}

/// Every index of `picks` points into `ws`.
pub open spec fn picks_within(ws: Seq<Seq<char>>, picks: Seq<int>) -> bool {
    forall|i: int| 0 <= i < picks.len() ==> 0 <= #[trigger] picks[i] < ws.len()
}

/// `s` is a word of `ws`, followed by any number of words of `ws` each
/// after `sep`.
pub open spec fn words_text(ws: Seq<Seq<char>>, sep: Seq<char>, s: Seq<char>) -> bool {
    exists|picks: Seq<int>|
        picks.len() >= 1 && picks_within(ws, picks) && s == #[trigger] word_concat(ws, sep, picks)
}

/// The separator between words: `_`, or nothing.
pub open spec fn sep_of(underscore: bool) -> Seq<char> {
    if underscore {
        seq!['_']
    } else {
        seq![]
    }
}

/// The names of the built-in terms.
pub open spec fn builtin_term(t: Seq<char>) -> bool {
    t == "IDENT"@ || t == "CAPS_IDENT"@ || t == "TYPE_IDENT"@ || t == "NUMBER"@ || t == "INT"@
        || t == "NEWLINE"@ || t == "NL"@ || t == "TAB"@
}

/// The texts that the number source `f` can give.
pub open spec fn number_texts<F: Fn() -> String>(f: F) -> spec_fn(Seq<char>) -> bool {
    |s: Seq<char>| exists|x: String| #[trigger] call_ensures(f, (), x) && x@ == s
}

/// What a built-in term writes after its leading space; a `NUMBER` writes
/// one of the texts `nums`.
pub open spec fn builtin_text(t: Seq<char>, s: Seq<char>, nums: spec_fn(Seq<char>) -> bool) -> bool {
    if t == "IDENT"@ {
        words_text(ident_words(), sep_of(true), s)
    } else if t == "CAPS_IDENT"@ {
        words_text(caps_words(), sep_of(true), s)
    } else if t == "TYPE_IDENT"@ {
        words_text(type_words(), sep_of(false), s)
    } else if t == "NUMBER"@ {
        nums(s)
    } else if t == "INT"@ {
        exists|n: u8| s == decimal_text(n as nat)
    } else if t == "NEWLINE"@ || t == "NL"@ {
        s == seq!['\n']
    } else if t == "TAB"@ {
        s == seq!['\t']
    } else {
        false
    }
}

/// The range `r` holds the character `c`.
pub open spec fn range_has(r: CfgRange, c: char) -> bool {
    match r.to {
        Some(to) => r.from <= c && c <= to,
        None => c == r.from,
    }
}

/// Some range of `rs` holds `c`.
pub open spec fn in_ranges(rs: Seq<CfgRange>, c: char) -> bool {
    exists|k: int| 0 <= k < rs.len() && #[trigger] range_has(rs[k], c)
}

/// What a `[...]` letter writes: one character of its ranges, or a space
/// where its ranges hold no character.
pub open spec fn range_text(rs: Seq<CfgRange>, s: Seq<char>) -> bool {
    ||| exists|c: char| #[trigger] in_ranges(rs, c) && s == seq![c]
    ||| (forall|c: char| !#[trigger] in_ranges(rs, c)) && s == seq![' ']
}

/// `a` is where `b` starts.
pub open spec fn prefix_of(a: Seq<Draw>, b: Seq<Draw>) -> bool {
    &&& a.len() <= b.len()
    &&& forall|i: int| 0 <= i < a.len() ==> #[trigger] b[i] == a[i]
}

/// What a walk ends in: a text; a term that is neither defined nor built
/// in, or the step limit, each with the text written before it stopped; or
/// draws that do not fit the walk (which the generator never records).
pub enum Outcome {
    Text(Seq<char>),
    Unknown(Seq<char>, Seq<char>),
    Limit(Seq<char>),
    Stuck,
}

/// A walk's outcome, the position in the draws after it and the steps left.
pub struct Run {
    pub out: Outcome,
    pub pos: int,
    pub fuel: nat,
}

/// The walk `r` with the text `s` written before its text.
pub open spec fn prepend(s: Seq<char>, r: Run) -> Run {
    match r.out {
        Outcome::Text(t) => Run { out: Outcome::Text(s + t), pos: r.pos, fuel: r.fuel },
        Outcome::Unknown(n, w) => Run { out: Outcome::Unknown(n, s + w), pos: r.pos, fuel: r.fuel },
        Outcome::Limit(w) => Run { out: Outcome::Limit(s + w), pos: r.pos, fuel: r.fuel },
        Outcome::Stuck => r,
    }
}

/// A walk stopped at draws that do not fit it.
pub open spec fn stuck(p: int, fuel: nat) -> Run {
    Run { out: Outcome::Stuck, pos: p, fuel }
}

/// The boolean of a `numerator / denominator` draw at `p`.
pub open spec fn ratio_at(ds: Seq<Draw>, p: int, numerator: u32, denominator: u32) -> Option<bool> {
    if 0 <= p < ds.len() {
        match ds[p] {
            Draw::Ratio(a, b, x) => if a == numerator && b == denominator {
                Some(x)
            } else {
                None
            },
            _ => None,
        }
    } else {
        None
    }
}

/// The index of a pick among `n` items at `p`.
pub open spec fn pick_at(ds: Seq<Draw>, p: int, n: nat) -> Option<int> {
    if 0 <= p < ds.len() {
        match ds[p] {
            Draw::Pick(m, k) => if m == n && 0 <= k < n {
                Some(k)
            } else {
                None
            },
            _ => None,
        }
    } else {
        None
    }
}

/// The byte drawn at `p`.
pub open spec fn byte_at(ds: Seq<Draw>, p: int) -> Option<u8> {
    if 0 <= p < ds.len() {
        match ds[p] {
            Draw::Byte(b) => Some(b),
            _ => None,
        }
    } else {
        None
    }
}

/// The number text drawn at `p`.
pub open spec fn number_at(ds: Seq<Draw>, p: int) -> Option<Seq<char>> {
    if 0 <= p < ds.len() {
        match ds[p] {
            Draw::Number(t) => Some(t),
            _ => None,
        }
    } else {
        None
    }
}

/// The characters whose scalar values run from `lo` up to `hi`, in order.
pub open spec fn char_seq(lo: int, hi: int) -> Seq<char>
    decreases hi - lo + 1,
{
    if hi < lo {
        seq![]
    } else {
        char_seq(lo, hi - 1) + if exists|c: char| scalar_value(c) == hi {
            seq![choose|c: char| scalar_value(c) == hi]
        } else {
            seq![]
        }
    }
}

/// The characters of one range, in order.
pub open spec fn range_chars(r: CfgRange) -> Seq<char> {
    match r.to {
        Some(to) => char_seq(r.from as int, to as int),
        None => seq![r.from],
    }
}

/// The characters of the ranges, range after range: what a `[...]` letter
/// picks from.
pub open spec fn range_choices(rs: Seq<CfgRange>) -> Seq<char>
    decreases rs.len(),
{
    if rs.len() == 0 {
        seq![]
    } else {
        range_choices(rs.drop_last()) + range_chars(rs.last())
    }
}

/// A `[...]` letter: one picked character of its ranges, or a space where
/// they hold none (then nothing is drawn); with the position after it.
pub open spec fn run_range(rs: Seq<CfgRange>, ds: Seq<Draw>, p: int) -> (Outcome, int) {
    let cs = range_choices(rs);
    if cs.len() == 0 {
        (Outcome::Text(seq![' ']), p)
    } else {
        match pick_at(ds, p, cs.len()) {
            Some(k) => (Outcome::Text(seq![cs[k]]), p + 1),
            None => (Outcome::Stuck, p),
        }
    }
}

/// The further words of a built-in identifier: while a one-in-five draw
/// says so, one more step, `sep` and a picked word.
pub open spec fn run_words(ws: Seq<Seq<char>>, sep: Seq<char>, ds: Seq<Draw>, p: int, fuel: nat) -> Run
    decreases fuel,
{
    match ratio_at(ds, p, 1, 5) {
        None => stuck(p, fuel),
        Some(false) => Run { out: Outcome::Text(seq![]), pos: p + 1, fuel },
        Some(true) => if fuel == 0 {
            Run { out: Outcome::Limit(seq![]), pos: p + 1, fuel: 0 }
        } else {
            match pick_at(ds, p + 1, ws.len()) {
                Some(k) => prepend(sep + ws[k], run_words(ws, sep, ds, p + 2, (fuel - 1) as nat)),
                None => stuck(p + 1, (fuel - 1) as nat),
            }
        },
    }
}

/// A built-in identifier: a picked word, then [`run_words`].
pub open spec fn run_ident(ws: Seq<Seq<char>>, sep: Seq<char>, ds: Seq<Draw>, p: int, fuel: nat) -> Run {
    match pick_at(ds, p, ws.len()) {
        Some(k) => prepend(ws[k], run_words(ws, sep, ds, p + 1, fuel)),
        None => stuck(p, fuel),
    }
}

/// A term that the grammar does not define: a built-in one writes a space
/// and its text; any other name is unknown, after the space.
pub open spec fn run_builtin(name: Seq<char>, ds: Seq<Draw>, p: int, fuel: nat) -> Run {
    if name == "IDENT"@ {
        prepend(seq![' '], run_ident(ident_words(), sep_of(true), ds, p, fuel))
    } else if name == "CAPS_IDENT"@ {
        prepend(seq![' '], run_ident(caps_words(), sep_of(true), ds, p, fuel))
    } else if name == "TYPE_IDENT"@ {
        prepend(seq![' '], run_ident(type_words(), sep_of(false), ds, p, fuel))
    } else if name == "NUMBER"@ {
        match number_at(ds, p) {
            Some(t) => Run { out: Outcome::Text(seq![' '] + t), pos: p + 1, fuel },
            None => stuck(p, fuel),
        }
    } else if name == "INT"@ {
        match byte_at(ds, p) {
            Some(b) => Run { out: Outcome::Text(seq![' '] + decimal_text(b as nat)), pos: p + 1, fuel },
            None => stuck(p, fuel),
        }
    } else if name == "NEWLINE"@ || name == "NL"@ {
        Run { out: Outcome::Text(seq![' ', '\n']), pos: p, fuel }
    } else if name == "TAB"@ {
        Run { out: Outcome::Text(seq![' ', '\t']), pos: p, fuel }
    } else {
        Run { out: Outcome::Unknown(name, seq![' ']), pos: p, fuel }
    }
}

/// The walk of the letter `l` of the grammar `g`, reading the draws `ds`
/// from `p`, with `fuel` steps left: each letter visited takes a step, as
/// does each further word of a built-in identifier.
pub open spec fn run_letter(g: CfgV, l: LetterV, ds: Seq<Draw>, p: int, fuel: nat) -> Run
    decreases fuel, 0int, 0int,
{
    if fuel == 0 {
        Run { out: Outcome::Limit(seq![]), pos: p, fuel: 0 }
    } else {
        let f = (fuel - 1) as nat;
        match l {
            LetterV::Rule(r) => run_list(g, g.slice(r), 0, ds, p, f),
            LetterV::Group(r) => run_list(g, g.slice(r), 0, ds, p, f),
            LetterV::StrLit(s) => Run { out: Outcome::Text(seq![' '] + s), pos: p, fuel: f },
            LetterV::Or(items) => if items.len() == 0 {
                Run { out: Outcome::Text(seq![]), pos: p, fuel: f }
            } else {
                match pick_at(ds, p, items.len()) {
                    Some(k) => run_list(g, g.slice(items[k]), 0, ds, p + 1, f),
                    None => stuck(p, f),
                }
            },
            LetterV::Optional(id) => match ratio_at(ds, p, 1, 2) {
                Some(true) => run_letter(g, g.letters[id as int], ds, p + 1, f),
                Some(false) => Run { out: Outcome::Text(seq![]), pos: p + 1, fuel: f },
                None => stuck(p, f),
            },
            LetterV::Many(id) => run_many(g, g.letters[id as int], ds, p, f),
            LetterV::OneOrMore(id) => {
                let r1 = run_letter(g, g.letters[id as int], ds, p, f);
                match r1.out {
                    Outcome::Text(s) => if r1.fuel <= f {
                        prepend(s, run_many(g, g.letters[id as int], ds, r1.pos, r1.fuel))
                    } else {
                        stuck(r1.pos, r1.fuel)
                    },
                    _ => r1,
                }
            },
            LetterV::Range(rs) => {
                let (o, q) = run_range(rs, ds, p);
                Run { out: o, pos: q, fuel: f }
            },
            LetterV::Term(name) => if g.terms.contains_key(name) {
                run_list(g, g.slice(g.terms[name]), 0, ds, p, f)
            } else {
                run_builtin(name, ds, p, f)
            },
        }
    }
}

/// The repetitions of `inner` (`*`, and `+` after its first): while a
/// one-in-two draw says so, one more walk of `inner`.
pub open spec fn run_many(g: CfgV, inner: LetterV, ds: Seq<Draw>, p: int, fuel: nat) -> Run
    decreases fuel, 2int, 0int,
{
    match ratio_at(ds, p, 1, 2) {
        None => stuck(p, fuel),
        Some(false) => Run { out: Outcome::Text(seq![]), pos: p + 1, fuel },
        Some(true) => {
            let r1 = run_letter(g, inner, ds, p + 1, fuel);
            match r1.out {
                Outcome::Text(s) => if r1.fuel < fuel {
                    prepend(s, run_many(g, inner, ds, r1.pos, r1.fuel))
                } else {
                    stuck(r1.pos, r1.fuel)
                },
                _ => r1,
            }
        },
    }
}

/// The walks of the letters `ls` from the `k`-th on, one after the other.
pub open spec fn run_list(g: CfgV, ls: Seq<LetterV>, k: int, ds: Seq<Draw>, p: int, fuel: nat) -> Run
    decreases fuel, 1int, ls.len() - k,
{
    if k < 0 || k >= ls.len() {
        Run { out: Outcome::Text(seq![]), pos: p, fuel }
    } else {
        let r1 = run_letter(g, ls[k], ds, p, fuel);
        match r1.out {
            Outcome::Text(s) => if r1.fuel <= fuel {
                prepend(s, run_list(g, ls, k + 1, ds, r1.pos, r1.fuel))
            } else {
                stuck(r1.pos, r1.fuel)
            },
            _ => r1,
        }
    }
}

/// The walk of a whole grammar from its top-level rule, with `u64::MAX`
/// steps.
pub open spec fn run_code(g: CfgV, ds: Seq<Draw>, p: int) -> Run {
    run_list(g, g.slice(g.top_level), 0, ds, p, u64::MAX as nat)
}

/// What an outcome of the generator stands for: the text written since
/// `before`, or its error.
pub open spec fn outcome_of(r: Result<(), GenerateError>, before: Seq<char>, after: Seq<char>) -> Outcome {
    match r {
        Ok(()) => Outcome::Text(after.skip(before.len() as int)),
        Err(GenerateError::UnknownTerm(t)) => Outcome::Unknown(t@, after.skip(before.len() as int)),
        Err(GenerateError::StepLimit) => Outcome::Limit(after.skip(before.len() as int)),
    }
}

/// A derivation tree: how a text was made from a letter.
pub enum Tree {
    /// A letter whose text is written directly: a literal, a range, a
    /// built-in term, or an `Or` without options.
    Leaf(Seq<char>),
    /// The letters of a rule, a group or a defined term: one tree each.
    Node(Seq<Tree>),
    /// An `Or`: the option taken, and one tree for each of its letters.
    Pick(int, Seq<Tree>),
    /// The repetitions of one letter (`?`, `*`, `+`): one tree each.
    Reps(Seq<Tree>),
}

/// The text that a tree yields.
pub open spec fn text(t: Tree) -> Seq<char>
    decreases t,
{
    match t {
        Tree::Leaf(s) => s,
        Tree::Node(ts) => texts(ts),
        Tree::Pick(_, ts) => texts(ts),
        Tree::Reps(ts) => texts(ts),
    }
}

/// The texts of the trees `ts`, one after the other.
pub open spec fn texts(ts: Seq<Tree>) -> Seq<char>
    decreases ts,
{
    if ts.len() == 0 {
        seq![]
    } else {
        texts(ts.drop_last()) + text(ts[ts.len() - 1])
    }
}

/// `t` is a derivation, in the grammar `g`, of the letter `l`.
pub open spec fn valid(g: CfgV, nums: spec_fn(Seq<char>) -> bool, l: LetterV, t: Tree) -> bool
    decreases t,
{
    match l {
        LetterV::Rule(r) => t matches Tree::Node(ts) && valid_list(g, nums, g.slice(r), ts),
        LetterV::Group(r) => t matches Tree::Node(ts) && valid_list(g, nums, g.slice(r), ts),
        LetterV::StrLit(s) => t == Tree::Leaf(seq![' '] + s),
        LetterV::Or(items) => {
            ||| items.len() == 0 && t == Tree::Leaf(seq![])
            ||| t matches Tree::Pick(k, ts) && 0 <= k < items.len() && valid_list(g, nums,
                g.slice(items[k]),
                ts,
            )
        },
        LetterV::Optional(id) => t matches Tree::Reps(ts) && ts.len() <= 1 && valid_reps(g, nums,
            g.letters[id as int],
            ts,
        ),
        LetterV::Many(id) => t matches Tree::Reps(ts) && valid_reps(g, nums, g.letters[id as int], ts),
        LetterV::OneOrMore(id) => t matches Tree::Reps(ts) && ts.len() >= 1 && valid_reps(g, nums,
            g.letters[id as int],
            ts,
        ),
        LetterV::Range(rs) => t matches Tree::Leaf(s) && range_text(rs, s),
        LetterV::Term(name) => if g.terms.contains_key(name) {
            t matches Tree::Node(ts) && valid_list(g, nums, g.slice(g.terms[name]), ts)
        } else {
            t matches Tree::Leaf(s) && s.len() >= 1 && s[0] == ' ' && builtin_text(
                name,
                s.skip(1),
                nums,
            )
        },
    }
}

/// `ts` are derivations of the letters `ls`, one each.
pub open spec fn valid_list(g: CfgV, nums: spec_fn(Seq<char>) -> bool, ls: Seq<LetterV>, ts: Seq<Tree>) -> bool
    decreases ts,
{
    &&& ls.len() == ts.len()
    &&& (ts.len() == 0 || (valid_list(g, nums, ls.drop_last(), ts.drop_last()) && valid(g, nums,
        ls[ls.len() - 1],
        ts[ts.len() - 1],
    )))
}

/// `ts` are derivations of the letter `l`, each.
pub open spec fn valid_reps(g: CfgV, nums: spec_fn(Seq<char>) -> bool, l: LetterV, ts: Seq<Tree>) -> bool
    decreases ts,
{
    ts.len() == 0 || (valid_reps(g, nums, l, ts.drop_last()) && valid(g, nums, l, ts[ts.len() - 1]))
}

/// `s` is a text of the letter `l` of the grammar `g`.
pub open spec fn made_from(g: CfgV, nums: spec_fn(Seq<char>) -> bool, l: LetterV, s: Seq<char>) -> bool {
    exists|t: Tree| #[trigger] valid(g, nums, l, t) && text(t) == s
}

/// `s` is a text of the letters `ls` of the grammar `g`, one after the other.
pub open spec fn made_from_list(g: CfgV, nums: spec_fn(Seq<char>) -> bool, ls: Seq<LetterV>, s: Seq<char>) -> bool {
    exists|ts: Seq<Tree>| #[trigger] valid_list(g, nums, ls, ts) && texts(ts) == s
}

/// The language of a grammar: the texts of its top-level rule.
pub open spec fn in_language(g: CfgV, nums: spec_fn(Seq<char>) -> bool, s: Seq<char>) -> bool {
    made_from_list(g, nums, g.slice(g.top_level), s)
}

/// A name that the grammar does not define and that is not built in.
pub open spec fn unknown_name(g: CfgV, t: Seq<char>) -> bool {
    !g.terms.contains_key(t) && !builtin_term(t)
}

/// A term that the grammar uses, does not define, and that is not built in.
pub open spec fn unknown_term(g: CfgV, t: Seq<char>) -> bool {
    &&& !g.terms.contains_key(t)
    &&& !builtin_term(t)
    &&& exists|i: int| 0 <= i < g.letters.len() && g.letters[i] == LetterV::Term(t)
}

/// `now` starts with `base`.
pub open spec fn extends(base: Seq<char>, now: Seq<char>) -> bool {
    now.len() >= base.len() && now.take(base.len() as int) == base
}

/// `l` is one of the letters of `g`.
pub open spec fn letter_of(g: CfgV, l: LetterV) -> bool {
    exists|i: int| 0 <= i < g.letters.len() && g.letters[i] == l
}

proof fn lemma_prefix_push(a: Seq<Draw>, d: Draw, ds: Seq<Draw>)
    requires
        prefix_of(a.push(d), ds),
    ensures
        prefix_of(a, ds),
        ds[a.len() as int] == d,
{
    assert forall|i: int| 0 <= i < a.len() implies #[trigger] ds[i] == a[i] by {
        assert(ds[i] == a.push(d)[i]);
    }
    assert(ds[a.len() as int] == a.push(d)[a.len() as int]);
}

proof fn lemma_prefix_push_keeps(a: Seq<Draw>, b: Seq<Draw>, d: Draw)
    requires
        prefix_of(a, b),
    ensures
        prefix_of(a, b.push(d)),
        prefix_of(b, b.push(d)),
{
    assert forall|i: int| 0 <= i < a.len() implies #[trigger] b.push(d)[i] == a[i] by {
        assert(b.push(d)[i] == b[i]);
    }
    assert forall|i: int| 0 <= i < b.len() implies #[trigger] b.push(d)[i] == b[i] by {}
}

proof fn lemma_prefix_trans(a: Seq<Draw>, b: Seq<Draw>, c: Seq<Draw>)
    requires
        prefix_of(a, b),
        prefix_of(b, c),
    ensures
        prefix_of(a, c),
{
    assert forall|i: int| 0 <= i < a.len() implies #[trigger] c[i] == a[i] by {
        assert(c[i] == b[i]);
    }
}

proof fn lemma_prefix_refl(a: Seq<Draw>)
    ensures
        prefix_of(a, a),
{
}

proof fn lemma_prepend_empty(r: Run)
    ensures
        prepend(seq![], r) == r,
{
    match r.out {
        Outcome::Text(t) => {
            assert(Seq::<char>::empty() + t =~= t);
        },
        Outcome::Unknown(_, t) => {
            assert(Seq::<char>::empty() + t =~= t);
        },
        Outcome::Limit(t) => {
            assert(Seq::<char>::empty() + t =~= t);
        },
        _ => {},
    }
}

proof fn lemma_prepend_prepend(a: Seq<char>, b: Seq<char>, r: Run)
    ensures
        prepend(a, prepend(b, r)) == prepend(a + b, r),
{
    match r.out {
        Outcome::Text(t) => {
            assert(a + (b + t) =~= (a + b) + t);
        },
        Outcome::Unknown(_, t) => {
            assert(a + (b + t) =~= (a + b) + t);
        },
        Outcome::Limit(t) => {
            assert(a + (b + t) =~= (a + b) + t);
        },
        _ => {},
    }
}

proof fn lemma_list_push(g: CfgV, nums: spec_fn(Seq<char>) -> bool, ls: Seq<LetterV>, i: int, ts: Seq<Tree>, t: Tree)
    requires
        0 <= i < ls.len(),
        valid_list(g, nums, ls.take(i), ts),
        valid(g, nums, ls[i], t),
    ensures
        valid_list(g, nums, ls.take(i + 1), ts.push(t)),
        texts(ts.push(t)) == texts(ts) + text(t),
{
    assert(ts.push(t).drop_last() =~= ts);
    assert(ls.take(i + 1).drop_last() =~= ls.take(i));
}

proof fn lemma_reps_push(g: CfgV, nums: spec_fn(Seq<char>) -> bool, l: LetterV, ts: Seq<Tree>, t: Tree)
    requires
        valid_reps(g, nums, l, ts),
        valid(g, nums, l, t),
    ensures
        valid_reps(g, nums, l, ts.push(t)),
        texts(ts.push(t)) == texts(ts) + text(t),
{
    assert(ts.push(t).drop_last() =~= ts);
}

proof fn lemma_concat_split(base: Seq<char>, before: Seq<char>, now: Seq<char>)
    requires
        extends(base, before),
        extends(before, now),
    ensures
        extends(base, now),
        now.skip(base.len() as int) == before.skip(base.len() as int) + now.skip(
            before.len() as int,
        ),
{
    assert(now.take(base.len() as int) =~= before.take(base.len() as int));
    assert(now.skip(base.len() as int) =~= before.skip(base.len() as int) + now.skip(
        before.len() as int,
    ));
}

proof fn lemma_in_ranges_step(rs: Seq<CfgRange>, k: int, c: char)
    requires
        0 <= k < rs.len(),
    ensures
        in_ranges(rs.take(k + 1), c) == (in_ranges(rs.take(k), c) || range_has(rs[k], c)),
{
    if in_ranges(rs.take(k + 1), c) {
        let i = choose|i: int|
            0 <= i < rs.take(k + 1).len() && #[trigger] range_has(rs.take(k + 1)[i], c);
        if i < k {
        }
    }
    if in_ranges(rs.take(k), c) {
        let i = choose|i: int| 0 <= i < rs.take(k).len() && #[trigger] range_has(rs.take(k)[i], c);
    }
    if range_has(rs[k], c) {
        assert(rs.take(k + 1)[k] == rs[k]);
    }
}

proof fn lemma_contains_concat(a: Seq<char>, b: Seq<char>, c: char)
    ensures
        (a + b).contains(c) == (a.contains(c) || b.contains(c)),
{
    if (a + b).contains(c) {
        let i = choose|i: int| 0 <= i < (a + b).len() && (a + b)[i] == c;
        if i >= a.len() {
        }
    }
    if a.contains(c) {
        let i = choose|i: int| 0 <= i < a.len() && a[i] == c;
        assert((a + b)[i] == c);
    }
    if b.contains(c) {
        let i = choose|i: int| 0 <= i < b.len() && b[i] == c;
        assert((a + b)[a.len() + i] == c);
    }
}

fn extend_chars(dst: &mut Vec<char>, src: &Vec<char>)
    ensures
        final(dst)@ == old(dst)@ + src@,
{
    let mut i: usize = 0;
    while i < src.len()
        invariant
            i <= src@.len(),
            dst@ == old(dst)@ + src@.take(i as int),
        decreases src@.len() - i,
    {
        dst.push(src[i]);
        i = i + 1;
    }
}

fn ident_list() -> (v: Vec<&'static str>)
    ensures
        strs_view(v@) == ident_words(),
{
    let mut v: Vec<&'static str> = Vec::new();
    v.push("foo");
    v.push("bar");
    v.push("baz");
    v.push("foobar");
    v.push("x");
    v.push("y");
    v.push("a");
    v.push("b");
    v.push("node");
    v.push("item");
    v.push("elem");
    v.push("i");
    v.push("index");
    v.push("str");
    v.push("out");
    v.push("buf");
    v.push("ptr");
    v.push("get");
    v.push("set");
    v
}

fn caps_list() -> (v: Vec<&'static str>)
    ensures
        strs_view(v@) == caps_words(),
{
    let mut v: Vec<&'static str> = Vec::new();
    v.push("FOO");
    v.push("BAR");
    v.push("BAZ");
    v.push("FOOBAR");
    v.push("VAR");
    v.push("X");
    v.push("Y");
    v.push("A");
    v.push("B");
    v
}

fn type_list() -> (v: Vec<&'static str>)
    ensures
        strs_view(v@) == type_words(),
{
    let mut v: Vec<&'static str> = Vec::new();
    v.push("Foo");
    v.push("Bar");
    v.push("Baz");
    v.push("Foobar");
    v.push("Node");
    v.push("List");
    v.push("X");
    v.push("Y");
    v.push("A");
    v.push("B");
    v
}

/// Writes one word of `words`, then, while a one-in-five draw says so, a
/// further word after `_` (where `underscore`) or directly.
fn gen_words(
    out: &mut Vec<char>,
    words: &Vec<&'static str>,
    underscore: bool,
    fallback: &str,
    draws: &mut Draws,
    fuel: &mut u64,
) -> (r: Result<(), GenerateError>)
    requires
        words@.len() > 0,
    ensures
        extends(old(out)@, final(out)@),
        r is Ok ==> words_text(
            strs_view(words@),
            sep_of(underscore),
            final(out)@.skip(old(out)@.len() as int),
        ),
        r matches Err(e) ==> e is StepLimit,
        *final(fuel) <= *old(fuel),
        prefix_of(old(draws).made(), final(draws).made()),
        forall|ds: Seq<Draw>|
            prefix_of(final(draws).made(), ds) ==> #[trigger] run_ident(
                strs_view(words@),
                sep_of(underscore),
                ds,
                old(draws).made().len() as int,
                *old(fuel) as nat,
            ) == (Run {
                out: outcome_of(r, old(out)@, final(out)@),
                pos: final(draws).made().len() as int,
                fuel: *final(fuel) as nat,
            }),
{
    let ghost ws = strs_view(words@);
    let ghost sep = sep_of(underscore);
    let ghost base = out@;
    let ghost log0 = draws.made();
    let ghost f0 = *fuel as nat;
    let first = match choose_from(words.as_slice(), draws) {
        Some(w) => *w,
        None => fallback,
    };
    let ghost k0: int = choose|k: int|
        0 <= k < words@.len() && words@[k] == first && draws.made() == log0.push(
            Draw::Pick(words@.len(), k),
        );
    push_str(out, first);
    let ghost mut picks: Seq<int> = seq![k0];
    assert(out@.take(base.len() as int) =~= base);
    proof {
        assert forall|ds: Seq<Draw>| prefix_of(draws.made(), ds) implies #[trigger] run_ident(
            ws,
            sep,
            ds,
            log0.len() as int,
            f0,
        ) == prepend(
            out@.skip(base.len() as int),
            run_words(ws, sep, ds, draws.made().len() as int, f0),
        ) by {
            lemma_prefix_push(log0, Draw::Pick(words@.len(), k0), ds);
            assert(out@.skip(base.len() as int) =~= first@);
        }
    }
    loop
        invariant
            ws == strs_view(words@),
            words@.len() > 0,
            sep == sep_of(underscore),
            base == old(out)@,
            log0 == old(draws).made(),
            f0 == *old(fuel) as nat,
            extends(base, out@),
            picks.len() >= 1,
            picks_within(ws, picks),
            out@.skip(base.len() as int) == word_concat(ws, sep, picks),
            *fuel <= *old(fuel),
            prefix_of(log0, draws.made()),
            forall|ds: Seq<Draw>|
                prefix_of(draws.made(), ds) ==> #[trigger] run_ident(ws, sep, ds, log0.len() as int, f0)
                    == prepend(
                    out@.skip(base.len() as int),
                    run_words(ws, sep, ds, draws.made().len() as int, *fuel as nat),
                ),
        decreases *fuel,
    {
        let ghost log1 = draws.made();
        let ghost fc = *fuel as nat;
        let ghost sofar = out@.skip(base.len() as int);
        let more = random_ratio(draws, 1, 5);
        proof {
            lemma_prefix_push_keeps(log0, log1, Draw::Ratio(1, 5, more));
        }
        if !more {
            proof {
                assert forall|ds: Seq<Draw>| prefix_of(draws.made(), ds) implies #[trigger] run_ident(
                    ws,
                    sep,
                    ds,
                    log0.len() as int,
                    f0,
                ) == (Run {
                    out: Outcome::Text(sofar),
                    pos: draws.made().len() as int,
                    fuel: fc,
                }) by {
                    lemma_prefix_push(log1, Draw::Ratio(1, 5, more), ds);
                    assert(sofar + Seq::<char>::empty() =~= sofar);
                }
            }
            return Ok(());
        }
        if *fuel == 0 {
            proof {
                assert forall|ds: Seq<Draw>| prefix_of(draws.made(), ds) implies #[trigger] run_ident(
                    ws,
                    sep,
                    ds,
                    log0.len() as int,
                    f0,
                ) == (Run { out: Outcome::Limit(sofar), pos: draws.made().len() as int, fuel: 0 }) by {
                    lemma_prefix_push(log1, Draw::Ratio(1, 5, more), ds);
                }
            }
            return Err(GenerateError::StepLimit);
        }
        *fuel = *fuel - 1;
        let ghost before = out@;
        if underscore {
            out.push('_');
        }
        let ghost log2 = draws.made();
        let w = match choose_from(words.as_slice(), draws) {
            Some(w) => *w,
            None => fallback,
        };
        let ghost k: int = choose|k: int|
            0 <= k < words@.len() && words@[k] == w && draws.made() == log2.push(
                Draw::Pick(words@.len(), k),
            );
        push_str(out, w);
        proof {
            lemma_prefix_push_keeps(log0, log2, Draw::Pick(words@.len(), k));
            assert(out@.take(base.len() as int) =~= base);
            assert(out@.skip(base.len() as int) =~= sofar + (sep + ws[k]));
            let np = picks.push(k);
            assert(np.drop_last() =~= picks);
            picks = np;
            assert forall|ds: Seq<Draw>| prefix_of(draws.made(), ds) implies #[trigger] run_ident(
                ws,
                sep,
                ds,
                log0.len() as int,
                f0,
            ) == prepend(
                out@.skip(base.len() as int),
                run_words(ws, sep, ds, draws.made().len() as int, *fuel as nat),
            ) by {
                lemma_prefix_push(log2, Draw::Pick(words@.len(), k), ds);
                lemma_prefix_push(log1, Draw::Ratio(1, 5, more), ds);
                lemma_prepend_prepend(sofar, sep + ws[k], run_words(ws, sep, ds, draws.made().len() as int, *fuel as nat));
            }
        }
    }
}

/// Writes a text of every letter of `rule`, in order.
fn gen_slice<F: Fn() -> String>(
    cfg: &Cfg,
    rule: &CfgRule,
    out: &mut Vec<char>,
    draws: &mut Draws,
    number_text: &F,
    fuel: &mut u64,
    Ghost(reach): Ghost<Set<int>>,
) -> (r: Result<(), GenerateError>)
    requires
        cfg@.closed_in(reach),
        span_in(*rule, cfg@.letters.len() as int, reach),
        number_text.requires(()),
    ensures
        extends(old(out)@, final(out)@),
        r is Ok ==> made_from_list(
            cfg@,
            number_texts(*number_text),
            cfg@.slice(*rule),
            final(out)@.skip(old(out)@.len() as int),
        ),
        r matches Err(GenerateError::UnknownTerm(t)) ==> unknown_term(cfg@, t@),
        *final(fuel) <= *old(fuel),
        prefix_of(old(draws).made(), final(draws).made()),
        forall|ds: Seq<Draw>|
            prefix_of(final(draws).made(), ds) ==> #[trigger] run_list(
                cfg@,
                cfg@.slice(*rule),
                0,
                ds,
                old(draws).made().len() as int,
                *old(fuel) as nat,
            ) == (Run {
                out: outcome_of(r, old(out)@, final(out)@),
                pos: final(draws).made().len() as int,
                fuel: *final(fuel) as nat,
            }),
    decreases *old(fuel), 1int,
{
    let ghost g = cfg@;
    let ghost nums = number_texts(*number_text);
    let ghost ls = g.slice(*rule);
    let slice = cfg.rule_slice(rule);
    let ghost base = out@;
    let ghost log0 = draws.made();
    let ghost f0 = *fuel as nat;
    let ghost mut ts: Seq<Tree> = seq![];
    let mut i: usize = 0;
    assert(out@.take(base.len() as int) =~= base);
    proof {
        assert forall|ds: Seq<Draw>| prefix_of(draws.made(), ds) implies #[trigger] run_list(
            g,
            ls,
            0,
            ds,
            log0.len() as int,
            f0,
        ) == prepend(
            out@.skip(base.len() as int),
            run_list(g, ls, 0, ds, draws.made().len() as int, f0),
        ) by {
            assert(out@.skip(base.len() as int) =~= Seq::<char>::empty());
            let r = run_list(g, ls, 0, ds, log0.len() as int, f0);
            if r.out is Text {
                assert(Seq::<char>::empty() + r.out->Text_0 =~= r.out->Text_0);
            }
        }
    }
    while i < slice.len()
        invariant
            g == cfg@,
            nums == number_texts(*number_text),
            g.closed_in(reach),
            ls == g.slice(*rule),
            span_in(*rule, g.letters.len() as int, reach),
            crate::cfg::letters_view(slice@) == ls,
            number_text.requires(()),
            i <= slice@.len(),
            base == old(out)@,
            log0 == old(draws).made(),
            f0 == *old(fuel) as nat,
            extends(base, out@),
            valid_list(g, nums, ls.take(i as int), ts),
            texts(ts) == out@.skip(base.len() as int),
            *fuel <= *old(fuel),
            prefix_of(log0, draws.made()),
            forall|ds: Seq<Draw>|
                prefix_of(draws.made(), ds) ==> #[trigger] run_list(g, ls, 0, ds, log0.len() as int, f0)
                    == prepend(
                    out@.skip(base.len() as int),
                    run_list(g, ls, i as int, ds, draws.made().len() as int, *fuel as nat),
                ),
        decreases slice@.len() - i,
    {
        let ghost before = out@;
        let ghost log1 = draws.made();
        let ghost fc = *fuel as nat;
        assert(ls[i as int] == slice@[i as int]@);
        assert(crate::cfg::letters_view(slice@).len() == slice@.len());
        assert(g.letters[rule.0 + i] == ls[i as int]);
        assert(reach.contains(rule.0 + i));
        assert(refs_in(g, g.letters[rule.0 + i], reach));
        match generate_from_letter(cfg, &slice[i], out, draws, number_text, fuel, Ghost(reach)) {
            Ok(()) => {},
            Err(e) => {
                proof {
                    lemma_prefix_trans(log0, log1, draws.made());
                    lemma_concat_split(base, before, out@);
                    assert forall|ds: Seq<Draw>| prefix_of(draws.made(), ds) implies #[trigger] run_list(
                        g,
                        ls,
                        0,
                        ds,
                        log0.len() as int,
                        f0,
                    ) == (Run {
                        out: outcome_of(Err(e), base, out@),
                        pos: draws.made().len() as int,
                        fuel: *fuel as nat,
                    }) by {
                        lemma_prefix_trans(log1, draws.made(), ds);
                        assert(run_letter(g, ls[i as int], ds, log1.len() as int, fc) == (Run {
                            out: outcome_of(Err(e), before, out@),
                            pos: draws.made().len() as int,
                            fuel: *fuel as nat,
                        }));
                        assert(run_list(g, ls, i as int, ds, log1.len() as int, fc) == run_letter(
                            g,
                            ls[i as int],
                            ds,
                            log1.len() as int,
                            fc,
                        ));
                        assert(run_list(g, ls, 0, ds, log0.len() as int, f0) == prepend(
                            before.skip(base.len() as int),
                            run_list(g, ls, i as int, ds, log1.len() as int, fc),
                        ));
                    }
                }
                return Err(e);
            },
        }
        proof {
            let t = choose|t: Tree|
                #[trigger] valid(g, nums, ls[i as int], t) && text(t) == out@.skip(before.len() as int);
            lemma_list_push(g, nums, ls, i as int, ts, t);
            lemma_concat_split(base, before, out@);
            ts = ts.push(t);
            lemma_prefix_trans(log0, log1, draws.made());
            let sofar = before.skip(base.len() as int);
            let s1 = out@.skip(before.len() as int);
            assert forall|ds: Seq<Draw>| prefix_of(draws.made(), ds) implies #[trigger] run_list(
                g,
                ls,
                0,
                ds,
                log0.len() as int,
                f0,
            ) == prepend(
                out@.skip(base.len() as int),
                run_list(g, ls, i + 1, ds, draws.made().len() as int, *fuel as nat),
            ) by {
                lemma_prefix_trans(log1, draws.made(), ds);
                let rest = run_list(g, ls, i + 1, ds, draws.made().len() as int, *fuel as nat);
                assert(run_letter(g, ls[i as int], ds, log1.len() as int, fc) == (Run {
                    out: Outcome::Text(s1),
                    pos: draws.made().len() as int,
                    fuel: *fuel as nat,
                }));
                assert(run_list(g, ls, i as int, ds, log1.len() as int, fc) == prepend(s1, rest));
                assert(run_list(g, ls, 0, ds, log0.len() as int, f0) == prepend(
                    sofar,
                    run_list(g, ls, i as int, ds, log1.len() as int, fc),
                ));
                lemma_prepend_prepend(sofar, s1, rest);
            }
        }
        i = i + 1;
    }
    assert(ls.take(i as int) =~= ls);
    proof {
        assert forall|ds: Seq<Draw>| prefix_of(draws.made(), ds) implies #[trigger] run_list(
            g,
            ls,
            0,
            ds,
            log0.len() as int,
            f0,
        ) == (Run {
            out: Outcome::Text(out@.skip(base.len() as int)),
            pos: draws.made().len() as int,
            fuel: *fuel as nat,
        }) by {
            assert(out@.skip(base.len() as int) + Seq::<char>::empty() =~= out@.skip(base.len() as int));
        }
    }
    Ok(())
}

/// Writes one character of the ranges `ranges`, picked by the random number
/// generator, or a space where they hold no character.
fn gen_range(ranges: &Vec<CfgRange>, out: &mut Vec<char>, draws: &mut Draws)
    ensures
        extends(old(out)@, final(out)@),
        range_text(ranges@, final(out)@.skip(old(out)@.len() as int)),
        prefix_of(old(draws).made(), final(draws).made()),
        forall|ds: Seq<Draw>|
            prefix_of(final(draws).made(), ds) ==> #[trigger] run_range(
                ranges@,
                ds,
                old(draws).made().len() as int,
            ) == (
                Outcome::Text(final(out)@.skip(old(out)@.len() as int)),
                final(draws).made().len() as int,
            ),
{
    let ghost base = out@;
    let ghost log0 = draws.made();
    let mut choices: Vec<char> = Vec::new();
    let mut k: usize = 0;
    while k < ranges.len()
        invariant
            k <= ranges@.len(),
            forall|c: char| #[trigger] choices@.contains(c) <==> in_ranges(ranges@.take(k as int), c),
            choices@ == range_choices(ranges@.take(k as int)),
        decreases ranges@.len() - k,
    {
        let r = ranges[k];
        let ghost prev = choices@;
        let mut cs: Vec<char> = Vec::new();
        match r.to {
            Some(to) => {
                cs = char_range(r.from, to);
            },
            None => {
                cs.push(r.from);
                proof {
                    assert(cs@ =~= seq![r.from]);
                    assert forall|c: char| cs@.contains(c) <==> c == r.from by {
                        if c == r.from {
                            assert(cs@[0] == c);
                        }
                    }
                }
            },
        }
        assert(cs@ == range_chars(r));
        extend_chars(&mut choices, &cs);
        proof {
            assert forall|c: char| #[trigger] choices@.contains(c) <==> in_ranges(
                ranges@.take(k + 1),
                c,
            ) by {
                lemma_in_ranges_step(ranges@, k as int, c);
                lemma_contains_concat(prev, cs@, c);
            }
            assert(ranges@.take(k + 1).drop_last() =~= ranges@.take(k as int));
            assert(ranges@.take(k + 1).last() == r);
        }
        k = k + 1;
    }
    assert(ranges@.take(k as int) =~= ranges@);
    let ghost cs = range_choices(ranges@);
    match choose_from(choices.as_slice(), draws) {
        Some(ch) => {
            let ch = *ch;
            let ghost j: int = choose|j: int|
                0 <= j < choices@.len() && choices@[j] == ch && draws.made() == log0.push(
                    Draw::Pick(choices@.len(), j),
                );
            out.push(ch);
            assert(out@.skip(base.len() as int) =~= seq![ch]);
            assert(choices@.contains(ch));
            proof {
                lemma_prefix_push_keeps(log0, log0, Draw::Pick(choices@.len(), j));
                assert forall|ds: Seq<Draw>| prefix_of(draws.made(), ds) implies #[trigger] run_range(
                    ranges@,
                    ds,
                    log0.len() as int,
                ) == (Outcome::Text(out@.skip(base.len() as int)), draws.made().len() as int) by {
                    lemma_prefix_push(log0, Draw::Pick(choices@.len(), j), ds);
                }
            }
        },
        None => {
            out.push(' ');
            assert forall|c: char| !#[trigger] in_ranges(ranges@, c) by {
                if in_ranges(ranges@, c) {
                    assert(choices@.contains(c));
                }
            }
            assert(out@.skip(base.len() as int) =~= seq![' ']);
        },
    }
    assert(out@.take(base.len() as int) =~= base);
}

proof fn lemma_builtin_names()
    ensures
        "TAB"@ != "IDENT"@,
        "TAB"@ != "CAPS_IDENT"@,
        "TAB"@ != "TYPE_IDENT"@,
        "TAB"@ != "NUMBER"@,
        "TAB"@ != "INT"@,
        "TAB"@ != "NEWLINE"@,
        "TAB"@ != "NL"@,
        "NEWLINE"@ != "IDENT"@,
        "NEWLINE"@ != "CAPS_IDENT"@,
        "NEWLINE"@ != "TYPE_IDENT"@,
        "NEWLINE"@ != "NUMBER"@,
        "NEWLINE"@ != "INT"@,
        "NL"@ != "IDENT"@,
        "NL"@ != "CAPS_IDENT"@,
        "NL"@ != "TYPE_IDENT"@,
        "NL"@ != "NUMBER"@,
        "NL"@ != "INT"@,
{
    reveal_strlit("TAB");
    reveal_strlit("IDENT");
    reveal_strlit("CAPS_IDENT");
    reveal_strlit("TYPE_IDENT");
    reveal_strlit("NUMBER");
    reveal_strlit("INT");
    reveal_strlit("NEWLINE");
    reveal_strlit("NL");
    assert("TAB"@[0] != "IDENT"@[0]);
    assert("TAB"@[0] != "CAPS_IDENT"@[0]);
    assert("TAB"@[0] != "TYPE_IDENT"@[1]);
    assert("TAB"@[0] != "NUMBER"@[0]);
    assert("TAB"@[0] != "INT"@[0]);
    assert("TAB"@[0] != "NEWLINE"@[0]);
    assert("TAB"@[0] != "NL"@[0]);
    assert("NEWLINE"@[0] != "IDENT"@[0]);
    assert("NEWLINE"@[0] != "CAPS_IDENT"@[0]);
    assert("NEWLINE"@[0] != "TYPE_IDENT"@[0]);
    assert("NEWLINE"@[1] != "NUMBER"@[1]);
    assert("NEWLINE"@[0] != "INT"@[0]);
    assert("NL"@.len() != "IDENT"@.len());
    assert("NL"@.len() != "CAPS_IDENT"@.len());
    assert("NL"@.len() != "TYPE_IDENT"@.len());
    assert("NL"@.len() != "NUMBER"@.len());
    assert("NL"@.len() != "INT"@.len());
}

/// Writes a space and a text of the built-in term `name`, or gives the
/// error of a name that is not built in.
fn gen_builtin<F: Fn() -> String>(
    name: &String,
    out: &mut Vec<char>,
    draws: &mut Draws,
    number_text: &F,
    fuel: &mut u64,
) -> (r: Result<(), GenerateError>)
    requires
        number_text.requires(()),
    ensures
        extends(old(out)@, final(out)@),
        r is Ok ==> final(out)@.skip(old(out)@.len() as int).len()
            >= 1 && final(out)@.skip(old(out)@.len() as int)[0] == ' ' && builtin_text(
            name@,
            final(out)@.skip(old(out)@.len() as int).skip(1),
            number_texts(*number_text),
        ),
        r matches Err(GenerateError::UnknownTerm(t)) ==> t@ == name@ && !builtin_term(name@),
        *final(fuel) <= *old(fuel),
        prefix_of(old(draws).made(), final(draws).made()),
        forall|ds: Seq<Draw>|
            prefix_of(final(draws).made(), ds) ==> #[trigger] run_builtin(
                name@,
                ds,
                old(draws).made().len() as int,
                *old(fuel) as nat,
            ) == (Run {
                out: outcome_of(r, old(out)@, final(out)@),
                pos: final(draws).made().len() as int,
                fuel: *final(fuel) as nat,
            }),
{
    let ghost base = out@;
    let ghost log0 = draws.made();
    let ghost f0 = *fuel as nat;
    let ghost nums = number_texts(*number_text);
    out.push(' ');
    let ghost mid = out@;
    assert(mid.take(base.len() as int) =~= base);
    assert(mid.skip(base.len() as int) =~= seq![' ']);
    let tc = crate::text::chars_of(name.as_str());
    if chars_equal_str(&tc, "IDENT") {
        let ws = ident_list();
        assert(strs_view(ws@).len() == ws@.len());
        let res = gen_words(out, &ws, true, "foo", draws, fuel);
        proof {
            lemma_concat_split(base, mid, out@);
            assert(out@.skip(base.len() as int).skip(1) =~= out@.skip(mid.len() as int));
            assert forall|ds: Seq<Draw>| prefix_of(draws.made(), ds) implies #[trigger] run_builtin(
                name@,
                ds,
                log0.len() as int,
                f0,
            ) == (Run {
                out: outcome_of(res, base, out@),
                pos: draws.made().len() as int,
                fuel: *fuel as nat,
            }) by {
                assert(mid.skip(base.len() as int) =~= seq![' ']);
            }
        }
        return res;
    }
    if chars_equal_str(&tc, "CAPS_IDENT") {
        let ws = caps_list();
        assert(strs_view(ws@).len() == ws@.len());
        let res = gen_words(out, &ws, true, "FOO", draws, fuel);
        proof {
            lemma_concat_split(base, mid, out@);
            assert(out@.skip(base.len() as int).skip(1) =~= out@.skip(mid.len() as int));
            assert forall|ds: Seq<Draw>| prefix_of(draws.made(), ds) implies #[trigger] run_builtin(
                name@,
                ds,
                log0.len() as int,
                f0,
            ) == (Run {
                out: outcome_of(res, base, out@),
                pos: draws.made().len() as int,
                fuel: *fuel as nat,
            }) by {
                assert(mid.skip(base.len() as int) =~= seq![' ']);
            }
        }
        return res;
    }
    if chars_equal_str(&tc, "TYPE_IDENT") {
        let ws = type_list();
        assert(strs_view(ws@).len() == ws@.len());
        let res = gen_words(out, &ws, false, "foo", draws, fuel);
        proof {
            lemma_concat_split(base, mid, out@);
            assert(out@.skip(base.len() as int).skip(1) =~= out@.skip(mid.len() as int));
            assert forall|ds: Seq<Draw>| prefix_of(draws.made(), ds) implies #[trigger] run_builtin(
                name@,
                ds,
                log0.len() as int,
                f0,
            ) == (Run {
                out: outcome_of(res, base, out@),
                pos: draws.made().len() as int,
                fuel: *fuel as nat,
            }) by {
                assert(mid.skip(base.len() as int) =~= seq![' ']);
            }
        }
        return res;
    }
    if chars_equal_str(&tc, "NUMBER") {
        let t = draws.number(number_text);
        push_str(out, t.as_str());
        proof {
            lemma_prefix_push_keeps(log0, log0, Draw::Number(t@));
            assert(out@.skip(mid.len() as int) =~= t@);
            assert(nums(t@));
            assert(out@.take(mid.len() as int) =~= mid);
            lemma_concat_split(base, mid, out@);
            let s = out@.skip(base.len() as int);
            assert(s.skip(1) =~= out@.skip(mid.len() as int));
            assert(s =~= seq![' '] + out@.skip(mid.len() as int));
            assert forall|ds: Seq<Draw>| prefix_of(draws.made(), ds) implies #[trigger] run_builtin(
                name@,
                ds,
                log0.len() as int,
                f0,
            ) == (Run {
                out: Outcome::Text(s),
                pos: draws.made().len() as int,
                fuel: *fuel as nat,
            }) by {
                lemma_prefix_push(log0, Draw::Number(t@), ds);
            }
        }
        Ok(())
    } else if chars_equal_str(&tc, "INT") {
        let n = random_u8(draws);
        push_decimal(out, n as usize);
        proof {
            lemma_prefix_push_keeps(log0, log0, Draw::Byte(n));
            assert(out@.skip(mid.len() as int) =~= decimal_text(n as nat));
            assert(out@.take(mid.len() as int) =~= mid);
            lemma_concat_split(base, mid, out@);
            let s = out@.skip(base.len() as int);
            assert(s.skip(1) =~= out@.skip(mid.len() as int));
            assert(s =~= seq![' '] + out@.skip(mid.len() as int));
            assert forall|ds: Seq<Draw>| prefix_of(draws.made(), ds) implies #[trigger] run_builtin(
                name@,
                ds,
                log0.len() as int,
                f0,
            ) == (Run {
                out: Outcome::Text(s),
                pos: draws.made().len() as int,
                fuel: *fuel as nat,
            }) by {
                lemma_prefix_push(log0, Draw::Byte(n), ds);
            }
        }
        Ok(())
    } else if chars_equal_str(&tc, "NEWLINE") || chars_equal_str(&tc, "NL") {
        out.push('\n');
        proof {
            lemma_builtin_names();
            assert(out@.skip(mid.len() as int) =~= seq!['\n']);
            assert(out@.take(mid.len() as int) =~= mid);
            lemma_concat_split(base, mid, out@);
            let s = out@.skip(base.len() as int);
            assert(s.skip(1) =~= out@.skip(mid.len() as int));
            assert(s =~= seq![' '] + out@.skip(mid.len() as int));
            assert(s =~= seq![' ', '\n']);
            assert forall|ds: Seq<Draw>| prefix_of(draws.made(), ds) implies #[trigger] run_builtin(
                name@,
                ds,
                log0.len() as int,
                f0,
            ) == (Run {
                out: Outcome::Text(s),
                pos: draws.made().len() as int,
                fuel: *fuel as nat,
            }) by {
            }
        }
        Ok(())
    } else if chars_equal_str(&tc, "TAB") {
        out.push('\t');
        proof {
            lemma_builtin_names();
            assert(out@.skip(mid.len() as int) =~= seq!['\t']);
            assert(out@.take(mid.len() as int) =~= mid);
            lemma_concat_split(base, mid, out@);
            let s = out@.skip(base.len() as int);
            assert(s.skip(1) =~= out@.skip(mid.len() as int));
            assert(s =~= seq![' '] + out@.skip(mid.len() as int));
            assert(s =~= seq![' ', '\t']);
            assert forall|ds: Seq<Draw>| prefix_of(draws.made(), ds) implies #[trigger] run_builtin(
                name@,
                ds,
                log0.len() as int,
                f0,
            ) == (Run {
                out: Outcome::Text(s),
                pos: draws.made().len() as int,
                fuel: *fuel as nat,
            }) by {
            }
        }
        Ok(())
    } else {
        Err(GenerateError::UnknownTerm(name.clone()))
    }
}

/// Writes a random text of the letter `ltr`.
#[verifier::rlimit(100)]
#[verifier::spinoff_prover]
fn generate_from_letter<F: Fn() -> String>(
    cfg: &Cfg,
    ltr: &CfgLetter,
    out: &mut Vec<char>,
    draws: &mut Draws,
    number_text: &F,
    fuel: &mut u64,
    Ghost(reach): Ghost<Set<int>>,
) -> (r: Result<(), GenerateError>)
    requires
        cfg@.closed_in(reach),
        refs_in(cfg@, ltr@, reach),
        number_text.requires(()),
    ensures
        extends(old(out)@, final(out)@),
        r is Ok ==> made_from(
            cfg@,
            number_texts(*number_text),
            ltr@,
            final(out)@.skip(old(out)@.len() as int),
        ),
        r matches Err(GenerateError::UnknownTerm(t)) ==> unknown_name(cfg@, t@) && (ltr@
            == LetterV::Term(t@) || letter_of(cfg@, LetterV::Term(t@))),
        *final(fuel) <= *old(fuel),
        r is Ok ==> *final(fuel) < *old(fuel),
        prefix_of(old(draws).made(), final(draws).made()),
        forall|ds: Seq<Draw>|
            prefix_of(final(draws).made(), ds) ==> #[trigger] run_letter(
                cfg@,
                ltr@,
                ds,
                old(draws).made().len() as int,
                *old(fuel) as nat,
            ) == (Run {
                out: outcome_of(r, old(out)@, final(out)@),
                pos: final(draws).made().len() as int,
                fuel: *final(fuel) as nat,
            }),
    decreases *old(fuel), 0int,
{
    let ghost log0 = draws.made();
    let ghost p0 = log0.len() as int;
    if *fuel == 0 {
        assert(out@.take(out@.len() as int) =~= out@);
        assert(out@.skip(out@.len() as int) =~= Seq::<char>::empty());
        return Err(GenerateError::StepLimit);
    }
    *fuel = *fuel - 1;
    let ghost f = *fuel as nat;
    let ghost g = cfg@;
    let ghost nums = number_texts(*number_text);
    let ghost base = out@;
    assert(out@.take(base.len() as int) =~= base);
    match ltr {
        CfgLetter::Rule(rule) => {
            let res = gen_slice(cfg, rule, out, draws, number_text, fuel, Ghost(reach));
            proof {
                assert forall|ds: Seq<Draw>| prefix_of(draws.made(), ds) implies #[trigger] run_letter(
                    g,
                    ltr@,
                    ds,
                    p0,
                    f + 1,
                ) == (Run {
                    out: outcome_of(res, base, out@),
                    pos: draws.made().len() as int,
                    fuel: *fuel as nat,
                }) by {
                    assert(run_list(g, g.slice(*rule), 0, ds, p0, f) == (Run {
                        out: outcome_of(res, base, out@),
                        pos: draws.made().len() as int,
                        fuel: *fuel as nat,
                    }));
                }
            }
            match res {
                Ok(()) => {},
                Err(e) => {
                    return Err(e);
                },
            }
            proof {
                let ts = choose|ts: Seq<Tree>|
                    #[trigger] valid_list(g, nums, g.slice(*rule), ts) && texts(ts) == out@.skip(
                        base.len() as int,
                    );
                assert(valid(g, nums, ltr@, Tree::Node(ts)));
            }
            Ok(())
        },
        CfgLetter::Group(group) => {
            let res = gen_slice(cfg, group, out, draws, number_text, fuel, Ghost(reach));
            proof {
                assert forall|ds: Seq<Draw>| prefix_of(draws.made(), ds) implies #[trigger] run_letter(
                    g,
                    ltr@,
                    ds,
                    p0,
                    f + 1,
                ) == (Run {
                    out: outcome_of(res, base, out@),
                    pos: draws.made().len() as int,
                    fuel: *fuel as nat,
                }) by {
                    assert(run_list(g, g.slice(*group), 0, ds, p0, f) == (Run {
                        out: outcome_of(res, base, out@),
                        pos: draws.made().len() as int,
                        fuel: *fuel as nat,
                    }));
                }
            }
            match res {
                Ok(()) => {},
                Err(e) => {
                    return Err(e);
                },
            }
            proof {
                let ts = choose|ts: Seq<Tree>|
                    #[trigger] valid_list(g, nums, g.slice(*group), ts) && texts(ts) == out@.skip(
                        base.len() as int,
                    );
                assert(valid(g, nums, ltr@, Tree::Node(ts)));
            }
            Ok(())
        },
        CfgLetter::StrLit(s) => {
            out.push(' ');
            push_str(out, s.as_str());
            assert(out@.skip(base.len() as int) =~= seq![' '] + s@);
            assert(out@.take(base.len() as int) =~= base);
            assert(valid(g, nums, ltr@, Tree::Leaf(seq![' '] + s@)));
            assert forall|ds: Seq<Draw>| prefix_of(draws.made(), ds) implies #[trigger] run_letter(
                g,
                ltr@,
                ds,
                p0,
                f + 1,
            ) == (Run {
                out: Outcome::Text(out@.skip(base.len() as int)),
                pos: draws.made().len() as int,
                fuel: *fuel as nat,
            }) by {}
            Ok(())
        },
        CfgLetter::Or(items) => {
            match choose_from(items.as_slice(), draws) {
                None => {
                    assert(out@.skip(base.len() as int) =~= Seq::<char>::empty());
                    assert(valid(g, nums, ltr@, Tree::Leaf(seq![])));
                    assert forall|ds: Seq<Draw>| prefix_of(draws.made(), ds) implies #[trigger] run_letter(
                        g,
                        ltr@,
                        ds,
                        p0,
                        f + 1,
                    ) == (Run {
                        out: Outcome::Text(out@.skip(base.len() as int)),
                        pos: draws.made().len() as int,
                        fuel: *fuel as nat,
                    }) by {}
                    Ok(())
                },
                Some(rule) => {
                    let rule = *rule;
                    let ghost k: int = choose|k: int|
                        0 <= k < items@.len() && items@[k] == rule && draws.made() == log0.push(
                            Draw::Pick(items@.len(), k),
                        );
                    let ghost log1 = draws.made();
                    proof {
                        lemma_or_refs(g, items@, reach, k);
                    }
                    let res = gen_slice(cfg, &rule, out, draws, number_text, fuel, Ghost(reach));
                    proof {
                        lemma_prefix_push_keeps(log0, log0, Draw::Pick(items@.len(), k));
                        lemma_prefix_trans(log0, log1, draws.made());
                        assert forall|ds: Seq<Draw>| prefix_of(draws.made(), ds) implies #[trigger] run_letter(
                            g,
                            ltr@,
                            ds,
                            p0,
                            f + 1,
                        ) == (Run {
                            out: outcome_of(res, base, out@),
                            pos: draws.made().len() as int,
                            fuel: *fuel as nat,
                        }) by {
                            lemma_prefix_trans(log1, draws.made(), ds);
                            lemma_prefix_push(log0, Draw::Pick(items@.len(), k), ds);
                            assert(run_list(g, g.slice(rule), 0, ds, p0 + 1, f) == (Run {
                                out: outcome_of(res, base, out@),
                                pos: draws.made().len() as int,
                                fuel: *fuel as nat,
                            }));
                        }
                    }
                    match res {
                        Ok(()) => {},
                        Err(e) => {
                            return Err(e);
                        },
                    }
                    proof {
                        let ts = choose|ts: Seq<Tree>|
                            #[trigger] valid_list(g, nums, g.slice(rule), ts) && texts(ts) == out@.skip(
                                base.len() as int,
                            );
                        assert(valid(g, nums, ltr@, Tree::Pick(k, ts)));
                    }
                    Ok(())
                },
            }
        },
        CfgLetter::Optional(id) => {
            let take = random_ratio(draws, 1, 2);
            let ghost log1 = draws.made();
            proof {
                lemma_prefix_push_keeps(log0, log0, Draw::Ratio(1, 2, take));
            }
            if take {
                let inner = cfg.get_letter(*id);
                let res = generate_from_letter(cfg, inner, out, draws, number_text, fuel, Ghost(reach));
                proof {
                    lemma_prefix_trans(log0, log1, draws.made());
                    assert forall|ds: Seq<Draw>| prefix_of(draws.made(), ds) implies #[trigger] run_letter(
                        g,
                        ltr@,
                        ds,
                        p0,
                        f + 1,
                    ) == (Run {
                        out: outcome_of(res, base, out@),
                        pos: draws.made().len() as int,
                        fuel: *fuel as nat,
                    }) by {
                        lemma_prefix_trans(log1, draws.made(), ds);
                        lemma_prefix_push(log0, Draw::Ratio(1, 2, take), ds);
                        assert(run_letter(g, inner@, ds, p0 + 1, f) == (Run {
                            out: outcome_of(res, base, out@),
                            pos: draws.made().len() as int,
                            fuel: *fuel as nat,
                        }));
                    }
                }
                match res {
                    Ok(()) => {},
                    Err(e) => {
                        return Err(e);
                    },
                }
                proof {
                    let t = choose|t: Tree|
                        #[trigger] valid(g, nums, inner@, t) && text(t) == out@.skip(base.len() as int);
                    lemma_reps_push(g, nums, inner@, seq![], t);
                    assert(valid(g, nums, ltr@, Tree::Reps(seq![t])));
                }
            } else {
                assert(out@.skip(base.len() as int) =~= Seq::<char>::empty());
                assert(valid(g, nums, ltr@, Tree::Reps(seq![])));
                assert forall|ds: Seq<Draw>| prefix_of(draws.made(), ds) implies #[trigger] run_letter(
                    g,
                    ltr@,
                    ds,
                    p0,
                    f + 1,
                ) == (Run { out: Outcome::Text(seq![]), pos: p0 + 1, fuel: f }) by {
                    lemma_prefix_push(log0, Draw::Ratio(1, 2, take), ds);
                }
            }
            Ok(())
        },
        CfgLetter::Many(id) => {
            let inner = cfg.get_letter(*id);
            let ghost mut ts: Seq<Tree> = seq![];
            proof {
                assert(out@.skip(base.len() as int) =~= Seq::<char>::empty());
                assert forall|ds: Seq<Draw>| prefix_of(draws.made(), ds) implies #[trigger] run_letter(
                    g,
                    ltr@,
                    ds,
                    p0,
                    f + 1,
                ) == prepend(
                    out@.skip(base.len() as int),
                    run_many(g, inner@, ds, draws.made().len() as int, *fuel as nat),
                ) by {
                    lemma_prepend_empty(run_many(g, inner@, ds, p0, f));
                }
            }
            loop
                invariant
                    g == cfg@,
                    nums == number_texts(*number_text),
                    g.closed_in(reach),
                    reach.contains(*id as int),
                    *id < g.letters.len(),
                    inner@ == g.letters[*id as int],
                    refs_in(g, inner@, reach),
                    ltr@ == LetterV::Many(*id),
                    number_text.requires(()),
                    base == old(out)@,
                    extends(base, out@),
                    valid_reps(g, nums, inner@, ts),
                    texts(ts) == out@.skip(base.len() as int),
                    *fuel < *old(fuel),
                    log0 == old(draws).made(),
                    p0 == log0.len(),
                    f + 1 == *old(fuel) as nat,
                    prefix_of(log0, draws.made()),
                    forall|ds: Seq<Draw>|
                        prefix_of(draws.made(), ds) ==> #[trigger] run_letter(g, ltr@, ds, p0, f + 1)
                            == prepend(
                            out@.skip(base.len() as int),
                            run_many(g, inner@, ds, draws.made().len() as int, *fuel as nat),
                        ),
                decreases *fuel,
            {
                let ghost log1 = draws.made();
                let ghost fc = *fuel as nat;
                let ghost sofar = out@.skip(base.len() as int);
                let more = random_ratio(draws, 1, 2);
                proof {
                    lemma_prefix_push_keeps(log0, log1, Draw::Ratio(1, 2, more));
                }
                if !more {
                    assert(valid(g, nums, ltr@, Tree::Reps(ts)));
                    proof {
                        assert forall|ds: Seq<Draw>| prefix_of(draws.made(), ds) implies #[trigger] run_letter(
                            g,
                            ltr@,
                            ds,
                            p0,
                            f + 1,
                        ) == (Run {
                            out: Outcome::Text(sofar),
                            pos: draws.made().len() as int,
                            fuel: fc,
                        }) by {
                            lemma_prefix_push(log1, Draw::Ratio(1, 2, more), ds);
                            assert(sofar + Seq::<char>::empty() =~= sofar);
                        }
                    }
                    return Ok(());
                }
                let ghost before = out@;
                let ghost log2 = draws.made();
                let res = generate_from_letter(cfg, inner, out, draws, number_text, fuel, Ghost(reach));
                proof {
                    lemma_prefix_trans(log0, log2, draws.made());
                }
                match res {
                    Ok(()) => {},
                    Err(e) => {
                        proof {
                            lemma_concat_split(base, before, out@);
                            assert forall|ds: Seq<Draw>| prefix_of(draws.made(), ds) implies #[trigger] run_letter(
                                g,
                                ltr@,
                                ds,
                                p0,
                                f + 1,
                            ) == (Run {
                                out: outcome_of(Err(e), base, out@),
                                pos: draws.made().len() as int,
                                fuel: *fuel as nat,
                            }) by {
                                lemma_concat_split(base, before, out@);
                                lemma_prefix_trans(log2, draws.made(), ds);
                                lemma_prefix_push(log1, Draw::Ratio(1, 2, more), ds);
                                assert(run_letter(g, inner@, ds, log2.len() as int, fc) == (Run {
                                    out: outcome_of(Err(e), before, out@),
                                    pos: draws.made().len() as int,
                                    fuel: *fuel as nat,
                                }));
                            }
                        }
                        return Err(e);
                    },
                }
                proof {
                    let t = choose|t: Tree|
                        #[trigger] valid(g, nums, inner@, t) && text(t) == out@.skip(before.len() as int);
                    lemma_reps_push(g, nums, inner@, ts, t);
                    lemma_concat_split(base, before, out@);
                    ts = ts.push(t);
                    let s1 = out@.skip(before.len() as int);
                    assert forall|ds: Seq<Draw>| prefix_of(draws.made(), ds) implies #[trigger] run_letter(
                        g,
                        ltr@,
                        ds,
                        p0,
                        f + 1,
                    ) == prepend(
                        out@.skip(base.len() as int),
                        run_many(g, inner@, ds, draws.made().len() as int, *fuel as nat),
                    ) by {
                        lemma_prefix_trans(log2, draws.made(), ds);
                        lemma_prefix_push(log1, Draw::Ratio(1, 2, more), ds);
                        let rest = run_many(g, inner@, ds, draws.made().len() as int, *fuel as nat);
                        assert(run_letter(g, inner@, ds, log2.len() as int, fc) == (Run {
                            out: Outcome::Text(s1),
                            pos: draws.made().len() as int,
                            fuel: *fuel as nat,
                        }));
                        assert(run_many(g, inner@, ds, log1.len() as int, fc) == prepend(s1, rest));
                        lemma_prepend_prepend(sofar, s1, rest);
                    }
                }
            }
        },
        CfgLetter::OneOrMore(id) => {
            let inner = cfg.get_letter(*id);
            let ghost log1 = draws.made();
            let res = generate_from_letter(cfg, inner, out, draws, number_text, fuel, Ghost(reach));
            match res {
                Ok(()) => {},
                Err(e) => {
                    proof {
                        assert forall|ds: Seq<Draw>| prefix_of(draws.made(), ds) implies #[trigger] run_letter(
                            g,
                            ltr@,
                            ds,
                            p0,
                            f + 1,
                        ) == (Run {
                            out: outcome_of(Err(e), base, out@),
                            pos: draws.made().len() as int,
                            fuel: *fuel as nat,
                        }) by {
                            assert(run_letter(g, inner@, ds, p0, f) == (Run {
                                out: outcome_of(Err(e), base, out@),
                                pos: draws.made().len() as int,
                                fuel: *fuel as nat,
                            }));
                        }
                    }
                    return Err(e);
                },
            }
            let ghost mut ts: Seq<Tree> = seq![];
            proof {
                let t = choose|t: Tree|
                    #[trigger] valid(g, nums, inner@, t) && text(t) == out@.skip(base.len() as int);
                lemma_reps_push(g, nums, inner@, seq![], t);
                ts = seq![].push(t);
                let s1 = out@.skip(base.len() as int);
                assert forall|ds: Seq<Draw>| prefix_of(draws.made(), ds) implies #[trigger] run_letter(
                    g,
                    ltr@,
                    ds,
                    p0,
                    f + 1,
                ) == prepend(
                    out@.skip(base.len() as int),
                    run_many(g, inner@, ds, draws.made().len() as int, *fuel as nat),
                ) by {
                    assert(run_letter(g, inner@, ds, p0, f) == (Run {
                        out: Outcome::Text(s1),
                        pos: draws.made().len() as int,
                        fuel: *fuel as nat,
                    }));
                }
            }
            loop
                invariant
                    g == cfg@,
                    nums == number_texts(*number_text),
                    g.closed_in(reach),
                    reach.contains(*id as int),
                    *id < g.letters.len(),
                    inner@ == g.letters[*id as int],
                    refs_in(g, inner@, reach),
                    ltr@ == LetterV::OneOrMore(*id),
                    number_text.requires(()),
                    base == old(out)@,
                    extends(base, out@),
                    valid_reps(g, nums, inner@, ts),
                    ts.len() >= 1,
                    texts(ts) == out@.skip(base.len() as int),
                    *fuel < *old(fuel),
                    log0 == old(draws).made(),
                    p0 == log0.len(),
                    f + 1 == *old(fuel) as nat,
                    prefix_of(log0, draws.made()),
                    forall|ds: Seq<Draw>|
                        prefix_of(draws.made(), ds) ==> #[trigger] run_letter(g, ltr@, ds, p0, f + 1)
                            == prepend(
                            out@.skip(base.len() as int),
                            run_many(g, inner@, ds, draws.made().len() as int, *fuel as nat),
                        ),
                decreases *fuel,
            {
                let ghost log1 = draws.made();
                let ghost fc = *fuel as nat;
                let ghost sofar = out@.skip(base.len() as int);
                let more = random_ratio(draws, 1, 2);
                proof {
                    lemma_prefix_push_keeps(log0, log1, Draw::Ratio(1, 2, more));
                }
                if !more {
                    assert(valid(g, nums, ltr@, Tree::Reps(ts)));
                    proof {
                        assert forall|ds: Seq<Draw>| prefix_of(draws.made(), ds) implies #[trigger] run_letter(
                            g,
                            ltr@,
                            ds,
                            p0,
                            f + 1,
                        ) == (Run {
                            out: Outcome::Text(sofar),
                            pos: draws.made().len() as int,
                            fuel: fc,
                        }) by {
                            lemma_prefix_push(log1, Draw::Ratio(1, 2, more), ds);
                            assert(sofar + Seq::<char>::empty() =~= sofar);
                        }
                    }
                    return Ok(());
                }
                let ghost before = out@;
                let ghost log2 = draws.made();
                let res = generate_from_letter(cfg, inner, out, draws, number_text, fuel, Ghost(reach));
                proof {
                    lemma_prefix_trans(log0, log2, draws.made());
                }
                match res {
                    Ok(()) => {},
                    Err(e) => {
                        proof {
                            lemma_concat_split(base, before, out@);
                            assert forall|ds: Seq<Draw>| prefix_of(draws.made(), ds) implies #[trigger] run_letter(
                                g,
                                ltr@,
                                ds,
                                p0,
                                f + 1,
                            ) == (Run {
                                out: outcome_of(Err(e), base, out@),
                                pos: draws.made().len() as int,
                                fuel: *fuel as nat,
                            }) by {
                                lemma_concat_split(base, before, out@);
                                lemma_prefix_trans(log2, draws.made(), ds);
                                lemma_prefix_push(log1, Draw::Ratio(1, 2, more), ds);
                                assert(run_letter(g, inner@, ds, log2.len() as int, fc) == (Run {
                                    out: outcome_of(Err(e), before, out@),
                                    pos: draws.made().len() as int,
                                    fuel: *fuel as nat,
                                }));
                            }
                        }
                        return Err(e);
                    },
                }
                proof {
                    let t = choose|t: Tree|
                        #[trigger] valid(g, nums, inner@, t) && text(t) == out@.skip(before.len() as int);
                    lemma_reps_push(g, nums, inner@, ts, t);
                    lemma_concat_split(base, before, out@);
                    ts = ts.push(t);
                    let s1 = out@.skip(before.len() as int);
                    assert forall|ds: Seq<Draw>| prefix_of(draws.made(), ds) implies #[trigger] run_letter(
                        g,
                        ltr@,
                        ds,
                        p0,
                        f + 1,
                    ) == prepend(
                        out@.skip(base.len() as int),
                        run_many(g, inner@, ds, draws.made().len() as int, *fuel as nat),
                    ) by {
                        lemma_prefix_trans(log2, draws.made(), ds);
                        lemma_prefix_push(log1, Draw::Ratio(1, 2, more), ds);
                        let rest = run_many(g, inner@, ds, draws.made().len() as int, *fuel as nat);
                        assert(run_letter(g, inner@, ds, log2.len() as int, fc) == (Run {
                            out: Outcome::Text(s1),
                            pos: draws.made().len() as int,
                            fuel: *fuel as nat,
                        }));
                        assert(run_many(g, inner@, ds, log1.len() as int, fc) == prepend(s1, rest));
                        lemma_prepend_prepend(sofar, s1, rest);
                    }
                }
            }
        },
        CfgLetter::Range(ranges) => {
            gen_range(ranges, out, draws);
            assert(out@.take(base.len() as int) =~= base);
            proof {
                assert forall|ds: Seq<Draw>| prefix_of(draws.made(), ds) implies #[trigger] run_letter(
                    g,
                    ltr@,
                    ds,
                    p0,
                    f + 1,
                ) == (Run {
                    out: Outcome::Text(out@.skip(base.len() as int)),
                    pos: draws.made().len() as int,
                    fuel: *fuel as nat,
                }) by {
                    assert(run_range(ranges@, ds, p0) == (
                        Outcome::Text(out@.skip(base.len() as int)),
                        draws.made().len() as int,
                    ));
                }
            }
            assert(valid(g, nums, ltr@, Tree::Leaf(out@.skip(base.len() as int))));
            Ok(())
        },
        CfgLetter::Term(term) => {
            match cfg.term_rule(term.as_str()) {
                Some(term_rule) => {
                    let res = gen_slice(cfg, &term_rule, out, draws, number_text, fuel, Ghost(reach));
                    proof {
                        assert forall|ds: Seq<Draw>| prefix_of(draws.made(), ds) implies #[trigger] run_letter(
                            g,
                            ltr@,
                            ds,
                            p0,
                            f + 1,
                        ) == (Run {
                            out: outcome_of(res, base, out@),
                            pos: draws.made().len() as int,
                            fuel: *fuel as nat,
                        }) by {
                            assert(run_list(g, g.slice(term_rule), 0, ds, p0, f) == (Run {
                                out: outcome_of(res, base, out@),
                                pos: draws.made().len() as int,
                                fuel: *fuel as nat,
                            }));
                        }
                    }
                    match res {
                        Ok(()) => {},
                        Err(e) => {
                            return Err(e);
                        },
                    }
                    proof {
                        let ts = choose|ts: Seq<Tree>|
                            #[trigger] valid_list(g, nums, g.slice(term_rule), ts) && texts(ts)
                                == out@.skip(base.len() as int);
                        assert(valid(g, nums, ltr@, Tree::Node(ts)));
                    }
                    return Ok(());
                },
                None => {},
            }
            let res = gen_builtin(term, out, draws, number_text, fuel);
            proof {
                assert forall|ds: Seq<Draw>| prefix_of(draws.made(), ds) implies #[trigger] run_letter(
                    g,
                    ltr@,
                    ds,
                    p0,
                    f + 1,
                ) == (Run {
                    out: outcome_of(res, base, out@),
                    pos: draws.made().len() as int,
                    fuel: *fuel as nat,
                }) by {
                    assert(!g.terms.contains_key(term@));
                    assert(run_builtin(term@, ds, p0, f) == (Run {
                        out: outcome_of(res, base, out@),
                        pos: draws.made().len() as int,
                        fuel: *fuel as nat,
                    }));
                }
                if res is Ok {
                    assert(valid(g, nums, ltr@, Tree::Leaf(out@.skip(base.len() as int))));
                }
            }
            res
        },
    }
}

/// The walk `r` with `d` more steps left at its end.
pub open spec fn more_fuel(r: Run, d: nat) -> Run {
    Run { out: r.out, pos: r.pos, fuel: r.fuel + d }
}

proof fn lemma_mono_words(ws: Seq<Seq<char>>, sep: Seq<char>, ds: Seq<Draw>, p: int, f: nat, big: nat)
    requires
        f <= big,
    ensures
        !(run_words(ws, sep, ds, p, f).out is Limit) ==> run_words(ws, sep, ds, p, big) == more_fuel(
            run_words(ws, sep, ds, p, f),
            (big - f) as nat,
        ),
    decreases f,
{
    if let Some(true) = ratio_at(ds, p, 1, 5) {
        if f > 0 {
            lemma_mono_words(ws, sep, ds, p + 2, (f - 1) as nat, (big - 1) as nat);
        }
    }
}

proof fn lemma_mono_letter(g: CfgV, l: LetterV, ds: Seq<Draw>, p: int, f: nat, big: nat)
    requires
        f <= big,
    ensures
        !(run_letter(g, l, ds, p, f).out is Limit) ==> run_letter(g, l, ds, p, big) == more_fuel(
            run_letter(g, l, ds, p, f),
            (big - f) as nat,
        ),
    decreases f, 0int, 0int,
{
    if f > 0 {
        let f1 = (f - 1) as nat;
        let b1 = (big - 1) as nat;
        match l {
            LetterV::Rule(r) => lemma_mono_list(g, g.slice(r), 0, ds, p, f1, b1),
            LetterV::Group(r) => lemma_mono_list(g, g.slice(r), 0, ds, p, f1, b1),
            LetterV::Or(items) => {
                if items.len() > 0 {
                    if let Some(k) = pick_at(ds, p, items.len()) {
                        lemma_mono_list(g, g.slice(items[k]), 0, ds, p + 1, f1, b1);
                    }
                }
            },
            LetterV::Optional(id) => {
                if let Some(true) = ratio_at(ds, p, 1, 2) {
                    lemma_mono_letter(g, g.letters[id as int], ds, p + 1, f1, b1);
                }
            },
            LetterV::Many(id) => lemma_mono_many(g, g.letters[id as int], ds, p, f1, b1),
            LetterV::OneOrMore(id) => {
                let inner = g.letters[id as int];
                let r1 = run_letter(g, inner, ds, p, f1);
                lemma_mono_letter(g, inner, ds, p, f1, b1);
                if let Outcome::Text(_) = r1.out {
                    if r1.fuel <= f1 {
                        lemma_mono_many(g, inner, ds, r1.pos, r1.fuel, (r1.fuel + (b1 - f1)) as nat);
                    }
                }
            },
            LetterV::Term(name) => {
                if g.terms.contains_key(name) {
                    lemma_mono_list(g, g.slice(g.terms[name]), 0, ds, p, f1, b1);
                } else if name == "IDENT"@ || name == "CAPS_IDENT"@ || name == "TYPE_IDENT"@ {
                    lemma_mono_words(ident_words(), sep_of(true), ds, p + 1, f1, b1);
                    lemma_mono_words(caps_words(), sep_of(true), ds, p + 1, f1, b1);
                    lemma_mono_words(type_words(), sep_of(false), ds, p + 1, f1, b1);
                }
            },
            _ => {},
        }
    }
}

proof fn lemma_mono_many(g: CfgV, inner: LetterV, ds: Seq<Draw>, p: int, f: nat, big: nat)
    requires
        f <= big,
    ensures
        !(run_many(g, inner, ds, p, f).out is Limit) ==> run_many(g, inner, ds, p, big) == more_fuel(
            run_many(g, inner, ds, p, f),
            (big - f) as nat,
        ),
    decreases f, 2int, 0int,
{
    if let Some(true) = ratio_at(ds, p, 1, 2) {
        let r1 = run_letter(g, inner, ds, p + 1, f);
        lemma_mono_letter(g, inner, ds, p + 1, f, big);
        if let Outcome::Text(_) = r1.out {
            if r1.fuel < f {
                lemma_mono_many(g, inner, ds, r1.pos, r1.fuel, (r1.fuel + (big - f)) as nat);
            }
        }
    }
}

proof fn lemma_mono_list(g: CfgV, ls: Seq<LetterV>, k: int, ds: Seq<Draw>, p: int, f: nat, big: nat)
    requires
        f <= big,
    ensures
        !(run_list(g, ls, k, ds, p, f).out is Limit) ==> run_list(g, ls, k, ds, p, big) == more_fuel(
            run_list(g, ls, k, ds, p, f),
            (big - f) as nat,
        ),
    decreases f, 1int, ls.len() - k,
{
    if 0 <= k < ls.len() {
        let r1 = run_letter(g, ls[k], ds, p, f);
        lemma_mono_letter(g, ls[k], ds, p, f, big);
        if let Outcome::Text(_) = r1.out {
            if r1.fuel <= f {
                lemma_mono_list(g, ls, k + 1, ds, r1.pos, r1.fuel, (r1.fuel + (big - f)) as nat);
            }
        }
    }
}

/// The step limit is reached only when the walk does not finish within
/// `u64::MAX` steps: a walk of the grammar from its top-level rule that ends
/// in anything but the limit with some `steps` up to `u64::MAX` ends the
/// same way in [`run_code`], which is what [`generate_code`] gives.
pub proof fn lemma_code_limit(g: CfgV, ds: Seq<Draw>, p: int, steps: nat)
    requires
        steps <= u64::MAX,
        !(run_list(g, g.slice(g.top_level), 0, ds, p, steps).out is Limit),
    ensures
        run_code(g, ds, p).out == run_list(g, g.slice(g.top_level), 0, ds, p, steps).out,
        run_code(g, ds, p).pos == run_list(g, g.slice(g.top_level), 0, ds, p, steps).pos,
{
    lemma_mono_list(g, g.slice(g.top_level), 0, ds, p, steps, u64::MAX as nat);
}

/// The result `r` of [`generate_code`] is what the walk ended in (the text
/// written before an error is dropped).
pub open spec fn gives(o: Outcome, r: Result<String, GenerateError>) -> bool {
    match r {
        Ok(s) => o == Outcome::Text(s@),
        Err(GenerateError::UnknownTerm(t)) => o matches Outcome::Unknown(n, _) && n == t@,
        Err(GenerateError::StepLimit) => o is Limit,
    }
}

/// Generates a random text of the grammar `cfg`, from its top-level rule,
/// with the random numbers of `draws`; `number_text` writes the text of a
/// built-in `NUMBER`.
///
/// The grammar must be walkable: every letter that a walk from its
/// top-level rule can reach is one of its letters (a parsed grammar is).
/// What it gives is the walk [`run_code`] of the grammar over the draws it
/// made, which `draws` records: a text, the unknown term that
/// the walk reached, or the step limit (after `u64::MAX` steps). Every text
/// it gives is in the language of the grammar.
pub fn generate_code<F: Fn() -> String>(cfg: Cfg, draws: &mut Draws, number_text: &F) -> (r:
    Result<String, GenerateError>)
    requires
        cfg@.walkable(),
        number_text.requires(()),
    ensures
        prefix_of(old(draws).made(), final(draws).made()),
        gives(run_code(cfg@, final(draws).made(), old(draws).made().len() as int).out, r),
        run_code(cfg@, final(draws).made(), old(draws).made().len() as int).pos
            == final(draws).made().len(),
        r matches Ok(s) ==> in_language(cfg@, number_texts(*number_text), s@),
        r matches Err(GenerateError::UnknownTerm(t)) ==> unknown_term(cfg@, t@),
{
    let mut code: Vec<char> = Vec::new();
    let mut fuel: u64 = u64::MAX;
    let top = cfg.top_rule();
    let ghost reach = choose|s: Set<int>|
        cfg@.closed_in(s) && #[trigger] span_in(cfg@.top_level, cfg@.letters.len() as int, s);
    let res = gen_slice(&cfg, &top, &mut code, draws, number_text, &mut fuel, Ghost(reach));
    proof {
        lemma_prefix_refl(draws.made());
        assert(run_list(cfg@, cfg@.slice(top), 0, draws.made(), old(draws).made().len() as int, u64::MAX as nat).out == outcome_of(res, seq![], code@));
    }
    match res {
        Ok(()) => {},
        Err(e) => {
            return Err(e);
        },
    }
    assert(code@.skip(0) =~= code@);
    Ok(string_from_chars(&code))
}

} // verus!
