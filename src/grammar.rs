//! The grammar of a document, stated as functions from the input characters
//! and a position to what the rule at that position yields.
use vstd::prelude::*;

use crate::object::object_entries;
use crate::value::{JsonModel, NumModel};

verus! {

/// What the parser expected where it stopped.
#[derive(Debug, Clone, Copy, PartialEq, Eq, Structural)]
pub enum ErrorKind {
    /// The given character.
    Char(char),
    /// One of the words `true`, `false`, `null`.
    Tag,
    /// A decimal digit.
    Digit,
    /// A letter, the first character of a key.
    Alpha,
    /// The first character of a value.
    Value,
    /// An array or an object, the only values a document may hold at its root.
    Composite,
    /// The end of the input.
    Eof,
}

/// A class of characters that the grammar reads in runs.
#[derive(Debug, Clone, Copy, PartialEq, Eq, Structural)]
pub enum CharClass {
    Space,
    Digit,
    Alnum,
}

pub open spec fn is_space(c: char) -> bool {
    c == ' ' || c == '\t' || c == '\n' || c == '\r'
}

pub open spec fn is_digit(c: char) -> bool {
    '0' <= c && c <= '9'
}

pub open spec fn is_alpha(c: char) -> bool {
    ('a' <= c && c <= 'z') || ('A' <= c && c <= 'Z')
}

pub open spec fn is_alnum(c: char) -> bool {
    is_alpha(c) || is_digit(c)
}

impl CharClass {
    pub open spec fn holds(self, c: char) -> bool {
        match self {
            CharClass::Space => is_space(c),
            CharClass::Digit => is_digit(c),
            CharClass::Alnum => is_alnum(c),
        }
    }
}

/// The length of the longest run of characters of `class` that starts at `p`.
pub open spec fn span(s: Seq<char>, p: int, class: CharClass) -> nat
    decreases s.len() - p,
{
    if 0 <= p < s.len() && class.holds(s[p]) {
        1 + span(s, p + 1, class)
    } else {
        0
    }
}

pub proof fn lemma_span(s: Seq<char>, p: int, class: CharClass)
    requires
        0 <= p <= s.len(),
    ensures
        p + span(s, p, class) <= s.len(),
        forall|i: int| p <= i < p + span(s, p, class) ==> class.holds(#[trigger] s[i]),
        p + span(s, p, class) < s.len() ==> !class.holds(s[p + span(s, p, class)]),
    decreases s.len() - p,
{
    if p < s.len() && class.holds(s[p]) {
        lemma_span(s, p + 1, class);
    }
}

/// What a rule yields: the value read and the number of characters it took,
/// or the position where it stopped and what it expected there.
pub type Parsed<T> = Result<(T, nat), (int, ErrorKind)>;

/// What a list rule yields: every value read so far and the position just
/// past the closing bracket.
pub type Listed<T> = Result<(Seq<T>, int), (int, ErrorKind)>;

pub open spec fn has_word(s: Seq<char>, p: int, word: Seq<char>) -> bool {
    0 <= p && p + word.len() <= s.len() && s.subrange(p, p + word.len()) == word
}

pub open spec fn true_word() -> Seq<char> {
    seq!['t', 'r', 'u', 'e']
}

pub open spec fn false_word() -> Seq<char> {
    seq!['f', 'a', 'l', 's', 'e']
}

pub open spec fn null_word() -> Seq<char> {
    seq!['n', 'u', 'l', 'l']
}

/// `d` without its leading zeros.
pub open spec fn strip_leading_zeros(d: Seq<char>) -> Seq<char>
    decreases d.len(),
{
    if d.len() > 0 && d[0] == '0' {
        strip_leading_zeros(d.subrange(1, d.len() as int))
    } else {
        d
    }
}

/// `d` without its trailing zeros.
pub open spec fn strip_trailing_zeros(d: Seq<char>) -> Seq<char>
    decreases d.len(),
{
    if d.len() > 0 && d.last() == '0' {
        strip_trailing_zeros(d.drop_last())
    } else {
        d
    }
}

/// The number written with the given sign, integer digits and fraction
/// digits, in canonical form; zero is never negative.
pub open spec fn number_from_digits(negative: bool, integer: Seq<char>, fraction: Seq<char>) -> NumModel {
    let i = strip_leading_zeros(integer);
    let i = if i.len() == 0 { seq!['0'] } else { i };
    let f = strip_trailing_zeros(fraction);
    NumModel { negative: negative && !(i == seq!['0'] && f.len() == 0), integer: i, fraction: f }
}

/// A string: a quote, letters and digits, a quote.
pub open spec fn string_rule(s: Seq<char>, p: int) -> Parsed<Seq<char>> {
    if !(0 <= p < s.len() && s[p] == '"') {
        Err((p, ErrorKind::Char('"')))
    } else {
        let e = p + 1 + span(s, p + 1, CharClass::Alnum);
        if e < s.len() && s[e] == '"' {
            Ok((s.subrange(p + 1, e), (e + 1 - p) as nat))
        } else {
            Err((e, ErrorKind::Char('"')))
        }
    }
}

/// A key: a string whose first character is a letter.
pub open spec fn key_rule(s: Seq<char>, p: int) -> Parsed<Seq<char>> {
    if 0 <= p < s.len() && s[p] == '"' && !(p + 1 < s.len() && is_alpha(s[p + 1])) {
        Err((p + 1, ErrorKind::Alpha))
    } else {
        string_rule(s, p)
    }
}

/// A number: an optional minus, digits, then a dot and digits if a digit
/// follows the dot.
pub open spec fn number_rule(s: Seq<char>, p: int) -> Parsed<NumModel> {
    let negative = 0 <= p < s.len() && s[p] == '-';
    let d = if negative { p + 1 } else { p };
    let e = d + span(s, d, CharClass::Digit);
    if e == d {
        Err((d, ErrorKind::Digit))
    } else {
        let f = if 0 <= e < s.len() && s[e] == '.' { span(s, e + 1, CharClass::Digit) } else { 0 };
        if f > 0 {
            Ok((number_from_digits(negative, s.subrange(d, e), s.subrange(e + 1, e + 1 + f)), (e + 1 + f - p) as nat))
        } else {
            Ok((number_from_digits(negative, s.subrange(d, e), Seq::empty()), (e - p) as nat))
        }
    }
}

/// One of the three words.
pub open spec fn word_rule(s: Seq<char>, p: int, word: Seq<char>, v: JsonModel) -> Parsed<JsonModel> {
    if has_word(s, p, word) {
        Ok((v, word.len()))
    } else {
        Err((p, ErrorKind::Tag))
    }
}

/// Any value, chosen by its first character.
pub open spec fn value_rule(s: Seq<char>, p: int) -> Parsed<JsonModel>
    decreases s.len() - p, 1int,
{
    if !(0 <= p < s.len()) {
        Err((p, ErrorKind::Value))
    } else if s[p] == '"' {
        match string_rule(s, p) {
            Ok((t, n)) => Ok((JsonModel::Str(t), n)),
            Err(e) => Err(e),
        }
    } else if s[p] == '-' || is_digit(s[p]) {
        match number_rule(s, p) {
            Ok((m, n)) => Ok((JsonModel::Num(m), n)),
            Err(e) => Err(e),
        }
    } else if s[p] == 't' {
        word_rule(s, p, true_word(), JsonModel::Bool(true))
    } else if s[p] == 'f' {
        word_rule(s, p, false_word(), JsonModel::Bool(false))
    } else if s[p] == 'n' {
        word_rule(s, p, null_word(), JsonModel::Null)
    } else if s[p] == '[' {
        array_rule(s, p)
    } else if s[p] == '{' {
        object_rule(s, p)
    } else {
        Err((p, ErrorKind::Value))
    }
}

/// An array: `[`, values separated by commas, `]`, with spaces around each
/// bracket and comma.
pub open spec fn array_rule(s: Seq<char>, p: int) -> Parsed<JsonModel>
    decreases s.len() - p, 0int,
{
    if !(0 <= p < s.len() && s[p] == '[') {
        Err((p, ErrorKind::Char('[')))
    } else {
        let q = p + 1 + span(s, p + 1, CharClass::Space);
        proof {
            lemma_span(s, p + 1, CharClass::Space);
        }
        if q < s.len() && s[q] == ']' {
            Ok((JsonModel::Array(Seq::empty()), (q + 1 - p) as nat))
        } else {
            match items_rule(s, q, Seq::empty()) {
                Ok((items, end)) => Ok((JsonModel::Array(items), (end - p) as nat)),
                Err(e) => Err(e),
            }
        }
    }
}

/// The values of an array from `q` on, through its closing bracket, after
/// the values `done` read before `q`.
pub open spec fn items_rule(s: Seq<char>, q: int, done: Seq<JsonModel>) -> Listed<JsonModel>
    decreases s.len() - q, 2int,
{
    match value_rule(s, q) {
        Err(e) => Err(e),
        Ok((v, n)) => {
            let r = q + n + span(s, q + n, CharClass::Space);
            if 0 <= r < s.len() && s[r] == ',' {
                let t = r + 1 + span(s, r + 1, CharClass::Space);
                proof {
                    lemma_span(s, r + 1, CharClass::Space);
                }
                items_rule(s, t, done.push(v))
            } else if 0 <= r < s.len() && s[r] == ']' {
                Ok((done.push(v), r + 1))
            } else {
                Err((r, ErrorKind::Char(']')))
            }
        }
    }
}

/// An object: `{`, key-value pairs separated by commas, `}`, with spaces
/// around each brace, colon and comma. A later pair replaces an earlier
/// pair with the same key.
pub open spec fn object_rule(s: Seq<char>, p: int) -> Parsed<JsonModel>
    decreases s.len() - p, 0int,
{
    if !(0 <= p < s.len() && s[p] == '{') {
        Err((p, ErrorKind::Char('{')))
    } else {
        let q = p + 1 + span(s, p + 1, CharClass::Space);
        proof {
            lemma_span(s, p + 1, CharClass::Space);
        }
        if q < s.len() && s[q] == '}' {
            Ok((JsonModel::Object(Seq::empty()), (q + 1 - p) as nat))
        } else {
            match members_rule(s, q, Seq::empty()) {
                Ok((pairs, end)) => Ok((JsonModel::Object(object_entries(pairs)), (end - p) as nat)),
                Err(e) => Err(e),
            }
        }
    }
}

/// The pairs of an object from `q` on, through its closing brace, after the
/// pairs `done` read before `q`.
pub open spec fn members_rule(s: Seq<char>, q: int, done: Seq<(Seq<char>, JsonModel)>) -> Listed<
    (Seq<char>, JsonModel),
>
    decreases s.len() - q, 2int,
{
    match key_rule(s, q) {
        Err(e) => Err(e),
        Ok((k, kn)) => {
            let c = q + kn + span(s, q + kn, CharClass::Space);
            if !(0 <= c < s.len() && s[c] == ':') {
                Err((c, ErrorKind::Char(':')))
            } else {
                let d = c + 1 + span(s, c + 1, CharClass::Space);
                proof {
                    lemma_span(s, c + 1, CharClass::Space);
                }
                match value_rule(s, d) {
                    Err(e) => Err(e),
                    Ok((v, n)) => {
                        let r = d + n + span(s, d + n, CharClass::Space);
                        if 0 <= r < s.len() && s[r] == ',' {
                            let t = r + 1 + span(s, r + 1, CharClass::Space);
                            proof {
                                lemma_span(s, r + 1, CharClass::Space);
                            }
                            members_rule(s, t, done.push((k, v)))
                        } else if 0 <= r < s.len() && s[r] == '}' {
                            Ok((done.push((k, v)), r + 1))
                        } else {
                            Err((r, ErrorKind::Char('}')))
                        }
                    },
                }
            }
        },
    }
}

/// A document: an array or an object, with spaces before and after it and
/// nothing else.
pub open spec fn document_rule(s: Seq<char>) -> Result<JsonModel, (int, ErrorKind)> {
    let p = span(s, 0, CharClass::Space) as int;
    if !(p < s.len() && (s[p] == '[' || s[p] == '{')) {
        Err((p, ErrorKind::Composite))
    } else {
        match value_rule(s, p) {
            Err(e) => Err(e),
            Ok((v, n)) => {
                let e = p + n + span(s, p + n, CharClass::Space);
                if e == s.len() {
                    Ok(v)
                } else {
                    Err((e, ErrorKind::Eof))
                }
            },
        }
    }
}

} // verus!
