//! The parsed grammar: a flat array of letters, rules as ranges into it, and
//! a table of named rules.
use vstd::prelude::*;

use crate::text::{push_str, string_from_chars};

verus! {

/// A group of letters: the letters at indices `.0` up to (not including) `.1`.
pub type CfgRule = (usize, usize);

/// A character range of a `[...]` letter: one character, or `from` to `to`.
#[derive(Clone, Copy, Debug, PartialEq, Eq, Structural)]
pub struct CfgRange {
    pub from: char,
    pub to: Option<char>,
}

impl CfgRange {
    /// The range from `from` to `to`, both included.
    pub fn new(from: char, to: char) -> (r: CfgRange)
        ensures
            r == (CfgRange { from, to: Some(to) }),
    {
        CfgRange { from, to: Some(to) }
    }

    /// The range of the one character `ch`.
    pub fn new_single(ch: char) -> (r: CfgRange)
        ensures
            r == (CfgRange { from: ch, to: None }),
    {
        CfgRange { from: ch, to: None }
    }

    /// The range as written in messages: `a-z`, or `a` for one character.
    pub fn to_text(&self) -> (s: String)
        ensures
            s@ == range_text(*self),
    {
        let mut out: Vec<char> = Vec::new();
        out.push(self.from);
        match self.to {
            Some(to) => {
                out.push('-');
                out.push(to);
            },
            None => {},
        }
        string_from_chars(&out)
    }
}

/// `from-to`, or `from` for a range of one character.
pub open spec fn range_text(r: CfgRange) -> Seq<char> {
    match r.to {
        Some(to) => seq![r.from, '-', to],
        None => seq![r.from],
    }
}

/// A letter of the grammar.
#[derive(Debug)]
pub enum CfgLetter {
    /// A reference to another rule
    Rule(CfgRule),
    /// String literal
    StrLit(String),
    /// A chain of options, where only one will be evaluated, denoted by the | operator
    Or(Vec<CfgRule>),
    /// An optional letter, denoted by the ? suffix
    Optional(usize),
    /// An arbitrary amount of repetitions, denoted by the * suffix
    Many(usize),
    /// One or more repetitions, denoted by the + suffix
    OneOrMore(usize),
    /// A group of letters, denoted by surrounding it in ( )
    Group(CfgRule),
    /// A choice of characters, denoted by [ ]
    Range(Vec<CfgRange>),
    /// A terminating value
    Term(String),
}

/// A letter, with its texts as sequences of characters.
pub enum LetterV {
    Rule(CfgRule),
    StrLit(Seq<char>),
    Or(Seq<CfgRule>),
    Optional(usize),
    Many(usize),
    OneOrMore(usize),
    Group(CfgRule),
    Range(Seq<CfgRange>),
    Term(Seq<char>),
}

impl View for CfgLetter {
    type V = LetterV;

    open spec fn view(&self) -> LetterV {
        match self {
            CfgLetter::Rule(r) => LetterV::Rule(*r),
            CfgLetter::StrLit(s) => LetterV::StrLit(s@),
            CfgLetter::Or(items) => LetterV::Or(items@),
            CfgLetter::Optional(i) => LetterV::Optional(*i),
            CfgLetter::Many(i) => LetterV::Many(*i),
            CfgLetter::OneOrMore(i) => LetterV::OneOrMore(*i),
            CfgLetter::Group(r) => LetterV::Group(*r),
            CfgLetter::Range(rs) => LetterV::Range(rs@),
            CfgLetter::Term(s) => LetterV::Term(s@),
        }
    }
}

/// The views of a sequence of letters.
pub open spec fn letters_view(ls: Seq<CfgLetter>) -> Seq<LetterV> {
    Seq::new(ls.len(), |i: int| ls[i]@)
}

/// The map that a list of (name, rule) entries stands for: a later entry of a
/// name replaces an earlier one.
pub open spec fn entries_map(es: Seq<(Seq<char>, CfgRule)>) -> Map<Seq<char>, CfgRule>
    decreases es.len(),
{
    if es.len() == 0 {
        Map::empty()
    } else {
        entries_map(es.drop_last()).insert(es.last().0, es.last().1)
    }
}

/// A table from names to rules.
#[derive(Clone, Debug)]
pub struct NameTable {
    entries: Vec<(String, CfgRule)>,
}

/// The entries of a table, with the names as characters.
pub open spec fn entries_view(es: Seq<(String, CfgRule)>) -> Seq<(Seq<char>, CfgRule)> {
    Seq::new(es.len(), |i: int| (es[i].0@, es[i].1))
}

impl View for NameTable {
    type V = Map<Seq<char>, CfgRule>;

    closed spec fn view(&self) -> Map<Seq<char>, CfgRule> {
        entries_map(entries_view(self.entries@))
    }
}

proof fn lemma_entries_map_lookup(es: Seq<(Seq<char>, CfgRule)>, k: Seq<char>, i: int)
    requires
        0 <= i < es.len(),
        es[i].0 == k,
        forall|j: int| i < j < es.len() ==> es[j].0 != k,
    ensures
        entries_map(es).contains_key(k),
        entries_map(es)[k] == es[i].1,
    decreases es.len(),
{
    if i < es.len() - 1 {
        lemma_entries_map_lookup(es.drop_last(), k, i);
    }
}

proof fn lemma_entries_map_absent(es: Seq<(Seq<char>, CfgRule)>, k: Seq<char>)
    requires
        forall|j: int| 0 <= j < es.len() ==> es[j].0 != k,
    ensures
        !entries_map(es).contains_key(k),
    decreases es.len(),
{
    if es.len() > 0 {
        lemma_entries_map_absent(es.drop_last(), k);
    }
}

impl NameTable {
    /// An empty table.
    pub fn new() -> (t: NameTable)
        ensures
            t@ == Map::<Seq<char>, CfgRule>::empty(),
    {
        let t = NameTable { entries: Vec::new() };
        t
    }

    /// Sets the rule of `name`, replacing any earlier one.
    pub fn insert(&mut self, name: String, rule: CfgRule)
        ensures
            final(self)@ == old(self)@.insert(name@, rule),
    {
        self.entries.push((name, rule));
        assert(entries_view(self.entries@).drop_last() == entries_view(old(self).entries@));
    }

    /// The rule of `name`, if it has one.
    pub fn get(&self, name: &str) -> (r: Option<CfgRule>)
        ensures
            r == (if self@.contains_key(name@) {
                Some(self@[name@])
            } else {
                None
            }),
    {
        let mut i: usize = self.entries.len();
        let mut key: Vec<char> = Vec::new();
        push_str(&mut key, name);
        let ghost es = entries_view(self.entries@);
        while i > 0
            invariant
                i <= self.entries@.len(),
                es == entries_view(self.entries@),
                key@ == name@,
                forall|j: int| i <= j < es.len() ==> es[j].0 != name@,
            decreases i,
        {
            i = i - 1;
            if chars_equal_str(&key, self.entries[i].0.as_str()) {
                proof {
                    lemma_entries_map_lookup(es, name@, i as int);
                }
                return Some(self.entries[i].1);
            }
        }
        proof {
            lemma_entries_map_absent(es, name@);
        }
        None
    }

    /// Whether `name` has a rule.
    pub fn contains_key(&self, name: &str) -> (b: bool)
        ensures
            b == self@.contains_key(name@),
    {
        self.get(name).is_some()
    }
}

/// Whether the characters of `a` are those of `b`.
pub(crate) fn chars_equal_str(a: &Vec<char>, b: &str) -> (r: bool)
    ensures
        r == (a@ == b@),
{
    let mut bv: Vec<char> = Vec::new();
    push_str(&mut bv, b);
    if a.len() != bv.len() {
        return false;
    }
    let mut i: usize = 0;
    while i < a.len()
        invariant
            a@.len() == bv@.len(),
            bv@ == b@,
            i <= a@.len(),
            forall|j: int| 0 <= j < i ==> a@[j] == bv@[j],
        decreases a@.len() - i,
    {
        if a[i] != bv[i] {
            return false;
        }
        i = i + 1;
    }
    assert(a@ == bv@);
    true
}

/// A parsed grammar.
#[derive(Debug)]
pub struct Cfg {
    letters: Vec<CfgLetter>,
    pub top_level: CfgRule,
    pub terms: NameTable,
}

/// A grammar, with its letters and names viewed.
pub struct CfgV {
    pub letters: Seq<LetterV>,
    pub top_level: CfgRule,
    pub terms: Map<Seq<char>, CfgRule>,
}

impl View for Cfg {
    type V = CfgV;

    closed spec fn view(&self) -> CfgV {
        CfgV {
            letters: letters_view(self.letters@),
            top_level: self.top_level,
            terms: self.terms@,
        }
    }
}

/// A rule that lies within `n` letters.
pub open spec fn rule_within(r: CfgRule, n: int) -> bool {
    r.0 <= r.1 <= n
}

/// Every index that the letter refers to lies within `n` letters.
pub open spec fn letter_within(l: LetterV, n: int) -> bool {
    match l {
        LetterV::Rule(r) => rule_within(r, n),
        LetterV::Group(r) => rule_within(r, n),
        LetterV::Or(items) => forall|k: int| 0 <= k < items.len() ==> #[trigger] rule_within(items[k], n),
        LetterV::Optional(i) => i < n,
        LetterV::Many(i) => i < n,
        LetterV::OneOrMore(i) => i < n,
        _ => true,
    }
}

/// An option of an `Or` letter lies within the letters that the letter does.
pub proof fn lemma_or_within(items: Seq<CfgRule>, n: int, k: int)
    requires
        letter_within(LetterV::Or(items), n),
        0 <= k < items.len(),
    ensures
        rule_within(items[k], n),
{
    let l = LetterV::Or(items);
    assert(l->Or_0 == items);
}

/// The letters of the rule `r` lie among `n` letters and in the set `s`.
pub open spec fn span_in(r: CfgRule, n: int, s: Set<int>) -> bool {
    &&& rule_within(r, n)
    &&& forall|k: int| r.0 <= k < r.1 ==> #[trigger] s.contains(k)
}

/// Every letter that the letter `l` of the grammar `g` leads a walk to (its
/// rule, group, options, the letter it repeats, or the rule of a defined
/// term) lies among the grammar's letters and in the set `s`.
pub open spec fn refs_in(g: CfgV, l: LetterV, s: Set<int>) -> bool {
    let n = g.letters.len() as int;
    match l {
        LetterV::Rule(r) => span_in(r, n, s),
        LetterV::Group(r) => span_in(r, n, s),
        LetterV::Or(items) => forall|j: int| 0 <= j < items.len() ==> #[trigger] span_in(items[j], n, s),
        LetterV::Optional(id) => s.contains(id as int),
        LetterV::Many(id) => s.contains(id as int),
        LetterV::OneOrMore(id) => s.contains(id as int),
        LetterV::Term(name) => g.terms.contains_key(name) ==> span_in(g.terms[name], n, s),
        _ => true,
    }
}

/// An option of an `Or` letter lies among the letters that `refs_in` gives.
pub proof fn lemma_or_refs(g: CfgV, items: Seq<CfgRule>, s: Set<int>, k: int)
    requires
        refs_in(g, LetterV::Or(items), s),
        0 <= k < items.len(),
    ensures
        span_in(items[k], g.letters.len() as int, s),
{
    let l = LetterV::Or(items);
    assert(l->Or_0 == items);
}

/// The letter at index `i` refers only to letters before it, unless it is
/// a reference to a rule: the parts of a letter are stored before it.
pub open spec fn letter_below(l: LetterV, i: int) -> bool {
    match l {
        LetterV::Rule(_) => true,
        _ => letter_within(l, i),
    }
}

impl CfgV {
    /// Every letter but a rule reference refers only to letters before it,
    /// so following the parts of letters always ends.
    pub open spec fn ordered(self) -> bool {
        forall|i: int| 0 <= i < self.letters.len() ==> letter_below(#[trigger] self.letters[i], i)
    }

    /// Every index in the grammar points into its letters.
    pub open spec fn well_formed(self) -> bool {
        &&& rule_within(self.top_level, self.letters.len() as int)
        &&& forall|i: int|
            0 <= i < self.letters.len() ==> letter_within(
                #[trigger] self.letters[i],
                self.letters.len() as int,
            )
        &&& forall|k: Seq<char>|
            #[trigger] self.terms.contains_key(k) ==> rule_within(
                self.terms[k],
                self.letters.len() as int,
            )
    }

    /// Every index of `s` is a letter of the grammar, and the letters that it
    /// leads a walk to are in `s` again.
    pub open spec fn closed_in(self, s: Set<int>) -> bool {
        forall|i: int|
            #[trigger] s.contains(i) ==> 0 <= i < self.letters.len() && refs_in(
                self,
                self.letters[i],
                s,
            )
    }

    /// A walk from the top-level rule reaches only letters of the grammar.
    pub open spec fn walkable(self) -> bool {
        exists|s: Set<int>|
            self.closed_in(s) && #[trigger] span_in(self.top_level, self.letters.len() as int, s)
    }

    /// The letters that the rule `r` groups.
    pub open spec fn slice(self, r: CfgRule) -> Seq<LetterV> {
        self.letters.subrange(r.0 as int, r.1 as int)
    }
}

impl Cfg {
    /// A grammar of the given letters, top-level rule and named terms.
    pub fn new(letters: Vec<CfgLetter>, top_level: CfgRule, terms: NameTable) -> (c: Cfg)
        ensures
            c@ == (CfgV {
                letters: letters_view(letters@),
                top_level,
                terms: terms@,
            }),
    {
        Cfg { letters, top_level, terms }
    }

    /// The top-level rule.
    pub fn top_rule(&self) -> (r: CfgRule)
        ensures
            r == self@.top_level,
    {
        self.top_level
    }

    /// The rule that the named term `name` stands for, if it has one.
    pub fn term_rule(&self, name: &str) -> (r: Option<CfgRule>)
        ensures
            r == (if self@.terms.contains_key(name@) {
                Some(self@.terms[name@])
            } else {
                None
            }),
    {
        self.terms.get(name)
    }

    /// The number of letters.
    pub fn len(&self) -> (n: usize)
        ensures
            n == self@.letters.len(),
    {
        self.letters.len()
    }

    /// Get the slice of letters, which `rule` refers to.
    pub fn rule_slice(&self, rule: &CfgRule) -> (s: &[CfgLetter])
        requires
            rule_within(*rule, self@.letters.len() as int),
        ensures
            letters_view(s@) == self@.slice(*rule),
    {
        let s = vstd::slice::slice_subrange(self.letters.as_slice(), rule.0, rule.1);
        s
    }

    /// The letter at index `id`.
    pub fn get_letter(&self, id: usize) -> (l: &CfgLetter)
        requires
            id < self@.letters.len(),
        ensures
            l@ == self@.letters[id as int],
    {
        &self.letters[id]
    }
}

/// A well-formed grammar can be walked from its top-level rule: every
/// letter that a walk reaches is one of its letters.
pub proof fn lemma_well_formed_walkable(g: CfgV)
    requires
        g.well_formed(),
    ensures
        g.walkable(),
        g.closed_in(Set::new(|i: int| 0 <= i < g.letters.len())),
{
    let n = g.letters.len() as int;
    let s = Set::new(|i: int| 0 <= i < n);
    assert forall|i: int| #[trigger] s.contains(i) implies 0 <= i < n && refs_in(g, g.letters[i], s) by {
        let l = g.letters[i];
        assert(letter_within(l, n));
        match l {
            LetterV::Or(items) => {
                assert forall|j: int| 0 <= j < items.len() implies #[trigger] span_in(items[j], n, s) by {
                    lemma_or_within(items, n, j);
                }
            },
            LetterV::Term(name) => {
                if g.terms.contains_key(name) {
                    assert(rule_within(g.terms[name], n));
                }
            },
            _ => {},
        }
    }
    assert(span_in(g.top_level, n, s));
}

} // verus!
