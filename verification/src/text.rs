//! Character classes, decimal numbers and string building.
//!
//! White space is the Unicode `White_Space` property, stated here in full.
//! The other Unicode classes of `char` (numeric, lower case, alphanumeric)
//! are stated on ASCII characters; beyond ASCII they are computed by std
//! from the Unicode tables, and their results there are named.
use vstd::prelude::*;

verus! {

/// The Unicode `White_Space` property, which `char::is_whitespace` tests:
/// tab to carriage return, space, next line, no-break space, ogham space
/// mark, the spaces from en quad to hair space, line and paragraph
/// separators, narrow no-break space, medium mathematical space and
/// ideographic space.
pub open spec fn whitespace(c: char) -> bool {
    let u = c as int;
    ||| 0x09 <= u <= 0x0D
    ||| u == 0x20
    ||| u == 0x85
    ||| u == 0xA0
    ||| u == 0x1680
    ||| 0x2000 <= u <= 0x200A
    ||| u == 0x2028
    ||| u == 0x2029
    ||| u == 0x202F
    ||| u == 0x205F
    ||| u == 0x3000
}

/// What `char::is_numeric` answers for a character beyond ASCII (general
/// categories `Nd`, `Nl`, `No`).
pub uninterp spec fn unicode_numeric(c: char) -> bool;

/// What `char::is_lowercase` answers for a character beyond ASCII (the
/// Unicode `Lowercase` property).
pub uninterp spec fn unicode_lowercase(c: char) -> bool;

/// What `char::is_alphanumeric` answers for a character beyond ASCII
/// (alphabetic or numeric).
pub uninterp spec fn unicode_alphanumeric(c: char) -> bool;

/// An ASCII character.
pub open spec fn is_ascii(c: char) -> bool {
    (c as int) < 0x80
}

/// What `char::is_numeric` answers: of the ASCII characters, the digits.
pub open spec fn numeric(c: char) -> bool {
    if is_ascii(c) {
        ascii_digit(c)
    } else {
        unicode_numeric(c)
    }
}

/// What `char::is_lowercase` answers: of the ASCII characters, `a` to `z`.
pub open spec fn lowercase(c: char) -> bool {
    if is_ascii(c) {
        'a' <= c && c <= 'z'
    } else {
        unicode_lowercase(c)
    }
}

/// What `char::is_alphanumeric` answers: of the ASCII characters, the
/// letters and the digits.
pub open spec fn alphanumeric(c: char) -> bool {
    if is_ascii(c) {
        ascii_letter(c) || ascii_digit(c)
    } else {
        unicode_alphanumeric(c)
    }
}

/// Whether `c` has the Unicode `White_Space` property, as
/// `char::is_whitespace` answers.
pub(crate) fn is_whitespace(c: char) -> (b: bool)
    ensures
        b == whitespace(c),
{
    let u: u32 = c as u32;
    (0x09 <= u && u <= 0x0D) || u == 0x20 || u == 0x85 || u == 0xA0 || u == 0x1680 || (0x2000 <= u
        && u <= 0x200A) || u == 0x2028 || u == 0x2029 || u == 0x202F || u == 0x205F || u == 0x3000
}

/// Calls `char::is_numeric`: on ASCII characters the digits, beyond ASCII
/// the name `unicode_numeric(c)`.
#[verifier::external_body]
pub(crate) fn is_numeric(c: char) -> (b: bool)
    ensures
        b == (if is_ascii(c) { ascii_digit(c) } else { unicode_numeric(c) }),
{
    c.is_numeric()
}

/// Calls `char::is_lowercase`: on ASCII characters `a` to `z`, beyond ASCII
/// the name `unicode_lowercase(c)`.
#[verifier::external_body]
pub(crate) fn is_lowercase(c: char) -> (b: bool)
    ensures
        b == (if is_ascii(c) { 'a' <= c && c <= 'z' } else { unicode_lowercase(c) }),
{
    c.is_lowercase()
}

/// Calls `char::is_alphanumeric`: on ASCII characters the letters and the
/// digits, beyond ASCII the name `unicode_alphanumeric(c)`.
#[verifier::external_body]
pub(crate) fn is_alphanumeric(c: char) -> (b: bool)
    ensures
        b == (if is_ascii(c) {
            ascii_letter(c) || ascii_digit(c)
        } else {
            unicode_alphanumeric(c)
        }),
{
    c.is_alphanumeric()
}

/// Builds a `String` from its characters with `String::from_iter`; the
/// string's characters are exactly `cs`, in order.
#[verifier::external_body]
pub(crate) fn string_from_chars(cs: &Vec<char>) -> (s: String)
    ensures
        s@ == cs@,
{
    String::from_iter(cs.iter())
}

/// An ASCII letter, `A`..=`Z` or `a`..=`z`.
pub open spec fn ascii_letter(c: char) -> bool {
    ('a' <= c && c <= 'z') || ('A' <= c && c <= 'Z')
}

/// An ASCII decimal digit.
pub open spec fn ascii_digit(c: char) -> bool {
    '0' <= c && c <= '9'
}

/// The value of an ASCII decimal digit.
pub open spec fn digit_value(c: char) -> nat {
    (c as int - '0' as int) as nat
}

/// The ASCII digit whose value is `d` (for `d < 10`).
pub open spec fn digit_char(d: nat) -> char {
    if d == 0 { '0' }
    else if d == 1 { '1' }
    else if d == 2 { '2' }
    else if d == 3 { '3' }
    else if d == 4 { '4' }
    else if d == 5 { '5' }
    else if d == 6 { '6' }
    else if d == 7 { '7' }
    else if d == 8 { '8' }
    else { '9' }
}

/// The decimal text of `n`, without leading zeros (`"0"` for zero), as
/// `usize`'s `Display` writes it.
pub open spec fn decimal_text(n: nat) -> Seq<char>
    decreases n,
{
    if n < 10 {
        seq![digit_char(n)]
    } else {
        decimal_text(n / 10).push(digit_char(n % 10))
    }
}

/// The value of a sequence of ASCII digits, read in base ten.
pub open spec fn decimal_value(ds: Seq<char>) -> nat
    decreases ds.len(),
{
    if ds.len() == 0 {
        0
    } else {
        decimal_value(ds.drop_last()) * 10 + digit_value(ds.last())
    }
}

/// What `str::parse::<usize>` gives on the text `ds` when `ds` holds no sign:
/// the value when `ds` is a non-empty run of ASCII digits whose value fits in
/// `usize`, nothing otherwise.
pub open spec fn parse_usize(ds: Seq<char>) -> Option<usize> {
    if ds.len() > 0 && (forall|i: int| 0 <= i < ds.len() ==> #[trigger] ascii_digit(ds[i]))
        && decimal_value(ds) <= usize::MAX {
        Some(decimal_value(ds) as usize)
    } else {
        None
    }
}

proof fn lemma_decimal_value_prefix_grows(ds: Seq<char>, i: int)
    requires
        0 <= i <= ds.len(),
    ensures
        decimal_value(ds.take(i)) <= decimal_value(ds),
    decreases ds.len(),
{
    if i < ds.len() {
        assert(ds.drop_last().take(i) == ds.take(i));
        lemma_decimal_value_prefix_grows(ds.drop_last(), i);
    } else {
        assert(ds.take(i) == ds);
    }
}

fn digit_to_char(d: usize) -> (c: char)
    requires
        d < 10,
    ensures
        c == digit_char(d as nat),
{
    if d == 0 { '0' }
    else if d == 1 { '1' }
    else if d == 2 { '2' }
    else if d == 3 { '3' }
    else if d == 4 { '4' }
    else if d == 5 { '5' }
    else if d == 6 { '6' }
    else if d == 7 { '7' }
    else if d == 8 { '8' }
    else { '9' }
}

fn char_to_digit(c: char) -> (d: usize)
    requires
        ascii_digit(c),
    ensures
        d as nat == digit_value(c),
        d < 10,
{
    if c == '0' { 0 }
    else if c == '1' { 1 }
    else if c == '2' { 2 }
    else if c == '3' { 3 }
    else if c == '4' { 4 }
    else if c == '5' { 5 }
    else if c == '6' { 6 }
    else if c == '7' { 7 }
    else if c == '8' { 8 }
    else { 9 }
}

/// Appends the decimal text of `n` to `out`.
pub fn push_decimal(out: &mut Vec<char>, n: usize)
    ensures
        final(out)@ == old(out)@ + decimal_text(n as nat),
    decreases n,
{
    if n >= 10 {
        push_decimal(out, n / 10);
    }
    out.push(digit_to_char(n % 10));
}

/// Reads `ds` as `str::parse::<usize>` does, for a text without sign.
pub fn parse_decimal(ds: &Vec<char>) -> (r: Option<usize>)
    ensures
        r == parse_usize(ds@),
{
    if ds.len() == 0 {
        return None;
    }
    let mut v: usize = 0;
    let mut i: usize = 0;
    while i < ds.len()
        invariant
            0 <= i <= ds@.len(),
            forall|k: int| 0 <= k < i ==> #[trigger] ascii_digit(ds@[k]),
            v as nat == decimal_value(ds@.take(i as int)),
        decreases ds@.len() - i,
    {
        let c = ds[i];
        if !('0' <= c && c <= '9') {
            assert(!ascii_digit(ds@[i as int]));
            return None;
        }
        let d = char_to_digit(c);
        assert(ds@.take(i + 1).drop_last() == ds@.take(i as int));
        match v.checked_mul(10) {
            Some(w) => match w.checked_add(d) {
                Some(x) => {
                    v = x;
                },
                None => {
                    proof {
                        lemma_none_when_prefix_overflows(ds@, i as int + 1);
                    }
                    return None;
                },
            },
            None => {
                proof {
                    lemma_none_when_prefix_overflows(ds@, i as int + 1);
                }
                return None;
            },
        }
        i = i + 1;
    }
    assert(ds@.take(ds@.len() as int) == ds@);
    Some(v)
}

proof fn lemma_none_when_prefix_overflows(ds: Seq<char>, i: int)
    requires
        0 < i <= ds.len(),
        decimal_value(ds.take(i)) > usize::MAX,
    ensures
        parse_usize(ds) is None,
{
    if forall|k: int| 0 <= k < ds.len() ==> #[trigger] ascii_digit(ds[k]) {
        lemma_decimal_value_prefix_grows(ds, i);
    }
}

/// Reading the decimal text of a number back gives the number: what
/// [`push_decimal`] writes, [`parse_decimal`] reads as the same value.
pub proof fn lemma_decimal_round_trip(n: usize)
    ensures
        parse_usize(decimal_text(n as nat)) == Some(n),
{
    lemma_decimal_text_value(n as nat);
}

proof fn lemma_decimal_text_value(n: nat)
    ensures
        decimal_text(n).len() > 0,
        forall|i: int| 0 <= i < decimal_text(n).len() ==> #[trigger] ascii_digit(decimal_text(n)[i]),
        decimal_value(decimal_text(n)) == n,
    decreases n,
{
    if n < 10 {
        lemma_digit_char_value(n);
        assert(seq![digit_char(n)].drop_last() =~= Seq::<char>::empty());
        assert(decimal_value(Seq::<char>::empty()) == 0);
    } else {
        lemma_digit_char_value(n % 10);
        lemma_decimal_text_value(n / 10);
        let s = decimal_text(n / 10);
        let d = digit_char(n % 10);
        assert(s.push(d).drop_last() =~= s);
        assert forall|i: int| 0 <= i < s.push(d).len() implies #[trigger] ascii_digit(s.push(d)[i]) by {
            if i < s.len() {
            }
        }
        assert(n == (n / 10) * 10 + n % 10) by (nonlinear_arith);
    }
}

proof fn lemma_digit_char_value(d: nat)
    requires
        d < 10,
    ensures
        ascii_digit(digit_char(d)),
        digit_value(digit_char(d)) == d,
{
}

/// Appends the characters of `s` to `out`.
pub fn push_str(out: &mut Vec<char>, s: &str)
    ensures
        final(out)@ == old(out)@ + s@,
{
    let ghost start = out@;
    for c in it: s.chars()
        invariant
            out@ == start + it.seq().take(it.index() as int),
            it.seq() == s@,
    {
        out.push(c);
    }
}

/// The characters of `s`, in order.
pub fn chars_of(s: &str) -> (v: Vec<char>)
    ensures
        v@ == s@,
{
    let mut v: Vec<char> = Vec::new();
    push_str(&mut v, s);
    v
}

/// The characters of `v` from `lo` up to (not including) `hi`.
pub fn sub_chars(v: &Vec<char>, lo: usize, hi: usize) -> (r: Vec<char>)
    requires
        lo <= hi <= v@.len(),
    ensures
        r@ == v@.subrange(lo as int, hi as int),
{
    let mut r: Vec<char> = Vec::new();
    let mut i: usize = lo;
    while i < hi
        invariant
            lo <= i <= hi <= v@.len(),
            r@ == v@.subrange(lo as int, i as int),
        decreases hi - i,
    {
        r.push(v[i]);
        i = i + 1;
    }
    r
}

} // verus!
