//! The parser: each rule of the grammar as a function over the input
//! characters, proved to yield what the rule yields.
use vstd::prelude::*;

use crate::grammar::{
    array_rule, document_rule, false_word, has_word, items_rule, key_rule, members_rule,
    null_word, number_from_digits, number_rule, object_rule, span, string_rule,
    strip_leading_zeros, strip_trailing_zeros, true_word, value_rule, word_rule, CharClass,
    ErrorKind,
};
use crate::object::{insert_sorted, object_entries};
use crate::text::{chars_of, string_of};
use crate::value::{entry_views_of, lemma_views_push, views_of, Json, JsonModel, Number};

verus! {

/// An error of the parser: where it stopped and what it expected.
pub type Failure = (usize, ErrorKind);

/// Why a document was refused: the input from where the parser stopped, and
/// what it expected there.
#[derive(Debug, Clone, PartialEq)]
pub struct JsonParseError {
    pub input: String,
    pub code: ErrorKind,
}

/// `r` is the failure `e` of the grammar.
pub open spec fn fails_as<T>(r: Result<T, Failure>, e: (int, ErrorKind)) -> bool {
    r is Err && r->Err_0.0 as int == e.0 && r->Err_0.1 == e.1
}

/// `r` is what the rule yielded, `m`, at position `p`: the same value, or
/// the same failure.
pub open spec fn yields(r: Result<(Json, usize), Failure>, m: Result<(JsonModel, nat), (int, ErrorKind)>, p: int) -> bool {
    match m {
        Ok((v, n)) => r is Ok && r->Ok_0.0.view() == v && r->Ok_0.1 == p + n,
        Err(e) => fails_as(r, e),
    }
}

fn class_holds(class: CharClass, c: char) -> (r: bool)
    ensures
        r == class.holds(c),
{
    let alpha = ('a' <= c && c <= 'z') || ('A' <= c && c <= 'Z');
    let digit = '0' <= c && c <= '9';
    match class {
        CharClass::Space => c == ' ' || c == '\t' || c == '\n' || c == '\r',
        CharClass::Digit => digit,
        CharClass::Alnum => alpha || digit,
    }
}

/// The position just past the run of characters of `class` at `p`.
fn scan(s: &Vec<char>, p: usize, class: CharClass) -> (q: usize)
    requires
        p <= s.len(),
    ensures
        q == p + span(s@, p as int, class),
        q <= s.len(),
{
    let mut q = p;
    while q < s.len() && class_holds(class, s[q])
        invariant
            p <= q <= s.len(),
            span(s@, p as int, class) == (q - p) + span(s@, q as int, class),
        decreases s.len() - q,
    {
        q += 1;
    }
    q
}

/// Whether `word` stands in `s` at `p`.
fn word_at(s: &Vec<char>, p: usize, word: &[char]) -> (r: bool)
    requires
        p <= s.len(),
    ensures
        r == has_word(s@, p as int, word@),
{
    if word.len() > s.len() - p {
        return false;
    }
    let mut i: usize = 0;
    while i < word.len()
        invariant
            p + word@.len() <= s.len(),
            0 <= i <= word.len(),
            forall|j: int| 0 <= j < i ==> s@[p + j] == word@[j],
        decreases word.len() - i,
    {
        if s[p + i] != word[i] {
            assert(s@.subrange(p as int, p + word@.len())[i as int] != word@[i as int]);
            return false;
        }
        i += 1;
    }
    assert(s@.subrange(p as int, p + word@.len()) =~= word@);
    true
}

/// The rule for strings.
fn string(s: &Vec<char>, p: usize) -> (r: Result<(String, usize), Failure>)
    requires
        p <= s.len(),
    ensures
        match string_rule(s@, p as int) {
            Ok((t, n)) => r is Ok && r->Ok_0.0@ == t && r->Ok_0.1 == p + n,
            Err(e) => fails_as(r, e),
        },
        r is Err ==> r->Err_0.0 <= s.len(),
        r is Ok ==> r->Ok_0.1 <= s.len(),
{
    if !(p < s.len() && s[p] == '"') {
        return Err((p, ErrorKind::Char('"')));
    }
    let e = scan(s, p + 1, CharClass::Alnum);
    if e < s.len() && s[e] == '"' {
        Ok((string_of(s, p + 1, e), e + 1))
    } else {
        Err((e, ErrorKind::Char('"')))
    }
}

/// The rule for keys.
fn key(s: &Vec<char>, p: usize) -> (r: Result<(String, usize), Failure>)
    requires
        p <= s.len(),
    ensures
        match key_rule(s@, p as int) {
            Ok((t, n)) => r is Ok && r->Ok_0.0@ == t && r->Ok_0.1 == p + n,
            Err(e) => fails_as(r, e),
        },
        r is Err ==> r->Err_0.0 <= s.len(),
        r is Ok ==> r->Ok_0.1 <= s.len(),
{
    if p < s.len() && s[p] == '"' && !(p + 1 < s.len() && class_holds(CharClass::Alnum, s[p + 1])
        && !class_holds(CharClass::Digit, s[p + 1])) {
        return Err((p + 1, ErrorKind::Alpha));
    }
    string(s, p)
}

/// The number with the given sign, integer digits `s[d..e]` and fraction
/// digits `s[fs..fe]`, in canonical form.
fn number_from(s: &Vec<char>, negative: bool, d: usize, e: usize, fs: usize, fe: usize) -> (r: Number)
    requires
        d <= e <= s.len(),
        fs <= fe <= s.len(),
    ensures
        r.view() == number_from_digits(
            negative,
            s@.subrange(d as int, e as int),
            s@.subrange(fs as int, fe as int),
        ),
{
    let mut i = d;
    while i < e && s[i] == '0'
        invariant
            d <= i <= e <= s.len(),
            strip_leading_zeros(s@.subrange(d as int, e as int)) == strip_leading_zeros(
                s@.subrange(i as int, e as int),
            ),
        decreases e - i,
    {
        assert(s@.subrange(i as int, e as int).subrange(1, e - i) =~= s@.subrange(i + 1, e as int));
        i += 1;
    }
    let mut j = fe;
    while j > fs && s[j - 1] == '0'
        invariant
            fs <= j <= fe <= s.len(),
            strip_trailing_zeros(s@.subrange(fs as int, fe as int)) == strip_trailing_zeros(
                s@.subrange(fs as int, j as int),
            ),
        decreases j - fs,
    {
        assert(s@.subrange(fs as int, j as int).drop_last() =~= s@.subrange(fs as int, j - 1));
        j -= 1;
    }
    let ghost int_digits = s@.subrange(i as int, e as int);
    let ghost frac_digits = s@.subrange(fs as int, j as int);
    assert(strip_leading_zeros(int_digits) == int_digits);
    assert(strip_trailing_zeros(frac_digits) == frac_digits);
    let zero = i == e && j == fs;
    let integer = if i == e {
        let z = String::from_str("0");
        proof {
            reveal_strlit("0");
            assert(z@ =~= seq!['0']);
        }
        z
    } else {
        assert(s@.subrange(i as int, e as int)[0] != '0');
        string_of(s, i, e)
    };
    let fraction = string_of(s, fs, j);
    assert(integer@ == seq!['0'] ==> i == e) by {
        if i < e {
            assert(integer@[0] != '0');
        }
    }
    Number { negative: negative && !zero, integer, fraction }
}

/// The rule for numbers.
fn number(s: &Vec<char>, p: usize) -> (r: Result<(Number, usize), Failure>)
    requires
        p <= s.len(),
    ensures
        match number_rule(s@, p as int) {
            Ok((m, n)) => r is Ok && r->Ok_0.0.view() == m && r->Ok_0.1 == p + n,
            Err(e) => fails_as(r, e),
        },
        r is Err ==> r->Err_0.0 <= s.len(),
        r is Ok ==> r->Ok_0.1 <= s.len(),
{
    let negative = p < s.len() && s[p] == '-';
    let d = if negative { p + 1 } else { p };
    let e = scan(s, d, CharClass::Digit);
    if e == d {
        return Err((d, ErrorKind::Digit));
    }
    if e < s.len() && s[e] == '.' {
        let f = scan(s, e + 1, CharClass::Digit);
        if f > e + 1 {
            return Ok((number_from(s, negative, d, e, e + 1, f), f));
        }
    }
    assert(s@.subrange(e as int, e as int) =~= Seq::<char>::empty());
    Ok((number_from(s, negative, d, e, e, e), e))
}

/// The position just past `word` if it stands at `p`.
fn literal(s: &Vec<char>, p: usize, word: &[char]) -> (r: Result<usize, Failure>)
    requires
        p <= s.len(),
    ensures
        has_word(s@, p as int, word@) ==> r == Ok::<usize, Failure>((p + word@.len()) as usize),
        !has_word(s@, p as int, word@) ==> r == Err::<usize, Failure>((p, ErrorKind::Tag)),
{
    if word_at(s, p, word) {
        Ok(p + word.len())
    } else {
        Err((p, ErrorKind::Tag))
    }
}

/// The rule for `true` and `false`.
fn boolean(s: &Vec<char>, p: usize) -> (r: Result<(Json, usize), Failure>)
    requires
        p < s.len(),
    ensures
        s@[p as int] == 't' ==> yields(r, word_rule(s@, p as int, true_word(), JsonModel::Bool(true)), p as int),
        s@[p as int] != 't' ==> yields(r, word_rule(s@, p as int, false_word(), JsonModel::Bool(false)), p as int),
        r is Err ==> r->Err_0.0 <= s.len(),
        r is Ok ==> r->Ok_0.1 <= s.len(),
{
    let t = ['t', 'r', 'u', 'e'];
    let f = ['f', 'a', 'l', 's', 'e'];
    assert(t@ =~= true_word());
    assert(f@ =~= false_word());
    let (word, b): (&[char], bool) = if s[p] == 't' { (&t, true) } else { (&f, false) };
    match literal(s, p, word) {
        Ok(e) => Ok((Json::Boolean(b), e)),
        Err(e) => Err(e),
    }
}

/// The rule for `null`.
fn null(s: &Vec<char>, p: usize) -> (r: Result<(Json, usize), Failure>)
    requires
        p < s.len(),
    ensures
        yields(r, word_rule(s@, p as int, null_word(), JsonModel::Null), p as int),
        r is Err ==> r->Err_0.0 <= s.len(),
        r is Ok ==> r->Ok_0.1 <= s.len(),
{
    let n = ['n', 'u', 'l', 'l'];
    assert(n@ =~= null_word());
    match literal(s, p, &n) {
        Ok(e) => Ok((Json::Null, e)),
        Err(e) => Err(e),
    }
}

/// The rule for any value.
fn value(s: &Vec<char>, p: usize) -> (r: Result<(Json, usize), Failure>)
    requires
        p <= s.len(),
    ensures
        yields(r, value_rule(s@, p as int), p as int),
        r is Err ==> r->Err_0.0 <= s.len(),
        r is Ok ==> r->Ok_0.1 <= s.len(),
    decreases s.len() - p, 1int,
{
    if p >= s.len() {
        return Err((p, ErrorKind::Value));
    }
    let c = s[p];
    if c == '"' {
        match string(s, p) {
            Ok((t, e)) => Ok((Json::String(t), e)),
            Err(f) => Err(f),
        }
    } else if c == '-' || class_holds(CharClass::Digit, c) {
        match number(s, p) {
            Ok((m, e)) => Ok((Json::Number(m), e)),
            Err(f) => Err(f),
        }
    } else if c == 't' || c == 'f' {
        boolean(s, p)
    } else if c == 'n' {
        null(s, p)
    } else if c == '[' {
        array(s, p)
    } else if c == '{' {
        object(s, p)
    } else {
        Err((p, ErrorKind::Value))
    }
}

/// The rule for arrays.
fn array(s: &Vec<char>, p: usize) -> (r: Result<(Json, usize), Failure>)
    requires
        p <= s.len(),
    ensures
        yields(r, array_rule(s@, p as int), p as int),
        r is Err ==> r->Err_0.0 <= s.len(),
        r is Ok ==> r->Ok_0.1 <= s.len(),
    decreases s.len() - p, 0int,
{
    if !(p < s.len() && s[p] == '[') {
        return Err((p, ErrorKind::Char('[')));
    }
    let first = scan(s, p + 1, CharClass::Space);
    if first < s.len() && s[first] == ']' {
        return Ok((Json::Array(Vec::new()), first + 1));
    }
    let mut items: Vec<Json> = Vec::new();
    let mut q = first;
    loop
        invariant
            p < first <= q <= s.len(),
            items_rule(s@, first as int, Seq::empty()) == items_rule(s@, q as int, views_of(items@)),
            array_rule(s@, p as int) == match items_rule(s@, first as int, Seq::empty()) {
                Ok((vs, end)) => Ok((JsonModel::Array(vs), (end - p) as nat)),
                Err(e) => Err(e),
            },
        decreases s.len() - q,
    {
        let (v, e) = match value(s, q) {
            Ok(x) => x,
            Err(f) => return Err(f),
        };
        let r = scan(s, e, CharClass::Space);
        proof {
            lemma_views_push(items@, v);
        }
        if r < s.len() && s[r] == ',' {
            let t = scan(s, r + 1, CharClass::Space);
            items.push(v);
            q = t;
        } else if r < s.len() && s[r] == ']' {
            items.push(v);
            return Ok((Json::Array(items), r + 1));
        } else {
            return Err((r, ErrorKind::Char(']')));
        }
    }
}

/// The rule for objects.
fn object(s: &Vec<char>, p: usize) -> (r: Result<(Json, usize), Failure>)
    requires
        p <= s.len(),
    ensures
        yields(r, object_rule(s@, p as int), p as int),
        r is Err ==> r->Err_0.0 <= s.len(),
        r is Ok ==> r->Ok_0.1 <= s.len(),
    decreases s.len() - p, 0int,
{
    if !(p < s.len() && s[p] == '{') {
        return Err((p, ErrorKind::Char('{')));
    }
    let first = scan(s, p + 1, CharClass::Space);
    if first < s.len() && s[first] == '}' {
        return Ok((Json::Object(Vec::new()), first + 1));
    }
    let mut entries: Vec<(String, Json)> = Vec::new();
    let ghost mut done: Seq<(Seq<char>, JsonModel)> = Seq::empty();
    let mut q = first;
    loop
        invariant
            p < first <= q <= s.len(),
            members_rule(s@, first as int, Seq::empty()) == members_rule(s@, q as int, done),
            entry_views_of(entries@) == object_entries(done),
            object_rule(s@, p as int) == match members_rule(s@, first as int, Seq::empty()) {
                Ok((pairs, end)) => Ok((JsonModel::Object(object_entries(pairs)), (end - p) as nat)),
                Err(e) => Err(e),
            },
        decreases s.len() - q,
    {
        let (k, after_key) = match key(s, q) {
            Ok(x) => x,
            Err(f) => return Err(f),
        };
        let c = scan(s, after_key, CharClass::Space);
        if !(c < s.len() && s[c] == ':') {
            return Err((c, ErrorKind::Char(':')));
        }
        let d = scan(s, c + 1, CharClass::Space);
        let (v, e) = match value(s, d) {
            Ok(x) => x,
            Err(f) => return Err(f),
        };
        let r = scan(s, e, CharClass::Space);
        proof {
            let pair = (k@, v.view());
            assert(done.push(pair).drop_last() =~= done);
            done = done.push(pair);
        }
        insert_sorted(&mut entries, k, v);
        if r < s.len() && s[r] == ',' {
            q = scan(s, r + 1, CharClass::Space);
        } else if r < s.len() && s[r] == '}' {
            return Ok((Json::Object(entries), r + 1));
        } else {
            return Err((r, ErrorKind::Char('}')));
        }
    }
}

/// The error for a failure at `pos`.
fn error_at(s: &Vec<char>, pos: usize, code: ErrorKind) -> (r: JsonParseError)
    requires
        pos <= s.len(),
    ensures
        r.input@ == s@.subrange(pos as int, s.len() as int),
        r.code == code,
{
    JsonParseError { input: string_of(s, pos, s.len()), code }
}

/// `r` is what reading `input` as a document gives: the value of the
/// grammar, or an error holding the input from where the grammar stopped and
/// what it expected there.
pub open spec fn parse_outcome(input: Seq<char>, r: Result<Json, JsonParseError>) -> bool {
    match document_rule(input) {
        Ok(v) => r is Ok && r->Ok_0.view() == v,
        Err((pos, code)) => r is Err && r->Err_0.input@ == input.subrange(pos, input.len() as int)
            && r->Err_0.code == code,
    }
}

impl Json {
    /// Reads a document: an array or an object, with nothing after it but
    /// spaces.
    pub fn parse(input: &str) -> (r: Result<Json, JsonParseError>)
        ensures
            parse_outcome(input@, r),
    {
        let s = chars_of(input);
        let p = scan(&s, 0, CharClass::Space);
        if !(p < s.len() && (s[p] == '[' || s[p] == '{')) {
            return Err(error_at(&s, p, ErrorKind::Composite));
        }
        match value(&s, p) {
            Err((q, code)) => Err(error_at(&s, q, code)),
            Ok((v, e)) => {
                let t = scan(&s, e, CharClass::Space);
                if t == s.len() {
                    Ok(v)
                } else {
                    Err(error_at(&s, t, ErrorKind::Eof))
                }
            },
        }
    }
}

impl Number {
    /// The number with the given sign, integer digits and fraction digits,
    /// in canonical form: `Number::new(true, "01", "50")` is -1.5.
    pub fn new(negative: bool, integer: &str, fraction: &str) -> (r: Number)
        ensures
            r.view() == number_from_digits(negative, integer@, fraction@),
    {
        let mut digits = chars_of(integer);
        let split = digits.len();
        let tail = chars_of(fraction);
        let mut i: usize = 0;
        while i < tail.len()
            invariant
                i <= tail.len(),
                split == integer@.len(),
                digits@ == integer@ + tail@.take(i as int),
            decreases tail.len() - i,
        {
            digits.push(tail[i]);
            assert(tail@.take(i + 1) =~= tail@.take(i as int).push(tail@[i as int]));
            i += 1;
        }
        assert(tail@.take(i as int) =~= fraction@);
        assert(digits@.subrange(0, split as int) =~= integer@);
        assert(digits@.subrange(split as int, digits.len() as int) =~= fraction@);
        number_from(&digits, negative, 0, split, split, digits.len())
    }
}

} // verus!
