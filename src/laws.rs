//! What holds of reading and writing together.
use vstd::prelude::*;

use crate::grammar::{
    document_rule, false_word, is_alnum, is_alpha, is_digit, is_space, items_rule, key_rule,
    lemma_span, members_rule, null_word, number_from_digits, number_rule, span, string_rule,
    strip_leading_zeros, strip_trailing_zeros, true_word, value_rule, CharClass, ErrorKind,
};
use crate::object::{insert_entry, key_less, lemma_insert_skips, lemma_key_less_total, object_entries};
use crate::serialize::{entries_text, items_text, key_text, number_text, text_of};
use crate::parser::parse_outcome;
use crate::value::{Json, JsonModel, NumModel};
use crate::JsonParseError;

verus! {

pub open spec fn all_digits(d: Seq<char>) -> bool {
    forall|i: int| 0 <= i < d.len() ==> is_digit(#[trigger] d[i])
}

/// A number in the form the parser gives: integer digits without a leading
/// zero (but for zero itself), fraction digits without a trailing zero, and
/// no negative zero.
pub open spec fn canonical_number(n: NumModel) -> bool {
    &&& n.integer.len() > 0
    &&& all_digits(n.integer)
    &&& (n.integer.len() == 1 || n.integer[0] != '0')
    &&& all_digits(n.fraction)
    &&& (n.fraction.len() == 0 || n.fraction.last() != '0')
    &&& (n.negative ==> !(n.integer == seq!['0'] && n.fraction.len() == 0))
}

/// A key the grammar accepts: a letter, then letters and digits.
pub open spec fn is_key(k: Seq<char>) -> bool {
    k.len() > 0 && is_alpha(k[0]) && forall|i: int| 0 <= i < k.len() ==> is_alnum(#[trigger] k[i])
}

/// Entries whose keys strictly increase.
pub open spec fn keys_sorted(entries: Seq<(Seq<char>, JsonModel)>) -> bool {
    forall|i: int, j: int| 0 <= i < j < entries.len() ==> key_less(#[trigger] entries[i].0, #[trigger] entries[j].0)
}

/// A value that the grammar can produce: strings of letters and digits,
/// canonical numbers, objects with valid keys in increasing order, all the
/// way down.
pub open spec fn well_formed(v: JsonModel) -> bool
    decreases v,
{
    match v {
        JsonModel::Str(t) => forall|i: int| 0 <= i < t.len() ==> is_alnum(#[trigger] t[i]),
        JsonModel::Num(n) => canonical_number(n),
        JsonModel::Bool(_) => true,
        JsonModel::Null => true,
        JsonModel::Array(items) => forall|i: int| 0 <= i < items.len() ==> well_formed(#[trigger] items[i]),
        JsonModel::Object(entries) => keys_sorted(entries) && forall|i: int|
            0 <= i < entries.len() ==> is_key(#[trigger] entries[i].0) && well_formed(entries[i].1),
    }
}

/// `t` stands in `s` at `p`.
pub open spec fn has_at(s: Seq<char>, p: int, t: Seq<char>) -> bool {
    0 <= p && p + t.len() <= s.len() && forall|i: int| 0 <= i < t.len() ==> s[p + i] == #[trigger] t[i]
}

/// Nothing at `e` could continue a number.
pub open spec fn ends_value(s: Seq<char>, e: int) -> bool {
    e == s.len() || (0 <= e < s.len() && !is_digit(s[e]) && s[e] != '.')
}

proof fn lemma_at_split(s: Seq<char>, p: int, a: Seq<char>, b: Seq<char>)
    requires
        has_at(s, p, a + b),
    ensures
        has_at(s, p, a),
        has_at(s, p + a.len(), b),
{
    assert forall|i: int| 0 <= i < a.len() implies s[p + i] == #[trigger] a[i] by {
        assert((a + b)[i] == a[i]);
    }
    assert forall|i: int| 0 <= i < b.len() implies s[p + a.len() + i] == #[trigger] b[i] by {
        assert((a + b)[a.len() + i] == b[i]);
    }
}

proof fn lemma_at_join(s: Seq<char>, p: int, a: Seq<char>, b: Seq<char>)
    requires
        has_at(s, p, a),
        has_at(s, p + a.len(), b),
    ensures
        has_at(s, p, a + b),
{
    assert forall|i: int| 0 <= i < (a + b).len() implies s[p + i] == #[trigger] (a + b)[i] by {
        if i < a.len() {
            assert(s[p + i] == a[i]);
        } else {
            assert(s[p + a.len() + (i - a.len())] == b[i - a.len()]);
        }
    }
}

proof fn lemma_span_exact(s: Seq<char>, p: int, class: CharClass, n: nat)
    requires
        0 <= p,
        p + n <= s.len(),
        forall|i: int| p <= i < p + n ==> class.holds(#[trigger] s[i]),
        p + n == s.len() || !class.holds(s[p + n]),
    ensures
        span(s, p, class) == n,
    decreases n,
{
    if n > 0 {
        lemma_span_exact(s, p + 1, class, (n - 1) as nat);
    }
}

/// The text of a value starts with a character that is no space and no
/// closing bracket.
proof fn lemma_text_start(v: JsonModel)
    requires
        well_formed(v),
    ensures
        text_of(v).len() > 0,
        !is_space(text_of(v)[0]),
        text_of(v)[0] != ']',
        text_of(v)[0] != '}',
{
    match v {
        JsonModel::Num(n) => {
            if n.negative {
                assert(text_of(v)[0] == '-');
            } else {
                assert(text_of(v)[0] == n.integer[0]);
                assert(is_digit(n.integer[0]));
            }
        },
        _ => {},
    }
}

proof fn lemma_items_start(items: Seq<JsonModel>)
    requires
        items.len() > 0,
        well_formed(items[0]),
    ensures
        items_text(items).len() > 0,
        !is_space(items_text(items)[0]),
        items_text(items)[0] != ']',
{
    lemma_text_start(items[0]);
    if items.len() > 1 {
        assert(items_text(items)[0] == text_of(items[0])[0]);
    }
}

proof fn lemma_canonical_number(n: NumModel)
    requires
        canonical_number(n),
    ensures
        number_from_digits(n.negative, n.integer, n.fraction) == n,
{
    let i0 = strip_leading_zeros(n.integer);
    if n.integer[0] == '0' {
        assert(n.integer.subrange(1, 1) =~= Seq::<char>::empty());
        assert(n.integer.subrange(1, n.integer.len() as int) =~= Seq::<char>::empty());
        assert(n.integer =~= seq!['0']);
        assert(strip_leading_zeros(Seq::<char>::empty()) == Seq::<char>::empty());
        assert(i0 == Seq::<char>::empty());
    } else {
        assert(i0 == n.integer);
    }
    let i = if i0.len() == 0 { seq!['0'] } else { i0 };
    assert(i == n.integer);
    assert(strip_trailing_zeros(n.fraction) == n.fraction);
}

#[verifier::rlimit(60)]
proof fn lemma_number_text(s: Seq<char>, p: int, n: NumModel)
    requires
        canonical_number(n),
        has_at(s, p, number_text(n)),
        ends_value(s, p + number_text(n).len()),
    ensures
        number_rule(s, p) == Ok::<(NumModel, nat), (int, ErrorKind)>((n, number_text(n).len())),
{
    let sign: Seq<char> = if n.negative { seq!['-'] } else { Seq::empty() };
    let frac: Seq<char> = if n.fraction.len() > 0 { seq!['.'] + n.fraction } else { Seq::empty() };
    assert(number_text(n) == sign + n.integer + frac);
    lemma_at_split(s, p, sign + n.integer, frac);
    lemma_at_split(s, p, sign, n.integer);
    let d = p + sign.len();
    let e = d + n.integer.len();
    if n.negative {
        assert(s[p + 0] == sign[0]);
    } else {
        assert(s[p + 0] == n.integer[0]);
        assert(is_digit(n.integer[0]));
    }
    assert forall|i: int| d <= i < e implies CharClass::Digit.holds(#[trigger] s[i]) by {
        assert(s[d + (i - d)] == n.integer[i - d]);
    }
    lemma_canonical_number(n);
    if n.fraction.len() > 0 {
        lemma_at_split(s, e, seq!['.'], n.fraction);
        assert(s[e + 0] == seq!['.'][0]);
        let f = n.fraction.len();
        assert forall|i: int| e + 1 <= i < e + 1 + f implies CharClass::Digit.holds(#[trigger] s[i]) by {
            assert(s[e + 1 + (i - e - 1)] == n.fraction[i - e - 1]);
        }
        lemma_span_exact(s, d, CharClass::Digit, n.integer.len());
        lemma_span_exact(s, e + 1, CharClass::Digit, f);
        assert(s.subrange(d, e) =~= n.integer);
        assert(s.subrange(e + 1, e + 1 + f) =~= n.fraction);
    } else {
        lemma_span_exact(s, d, CharClass::Digit, n.integer.len());
        assert(s.subrange(d, e) =~= n.integer);
        assert(n.fraction =~= Seq::<char>::empty());
    }
}

proof fn lemma_string_text(s: Seq<char>, p: int, x: Seq<char>)
    requires
        forall|i: int| 0 <= i < x.len() ==> is_alnum(#[trigger] x[i]),
        has_at(s, p, seq!['"'] + x + seq!['"']),
    ensures
        string_rule(s, p) == Ok::<(Seq<char>, nat), (int, ErrorKind)>((x, x.len() + 2)),
{
    lemma_at_split(s, p, seq!['"'] + x, seq!['"']);
    lemma_at_split(s, p, seq!['"'], x);
    let e = p + 1 + x.len();
    assert(s[p + 0] == seq!['"'][0]);
    assert(s[e + 0] == seq!['"'][0]);
    assert forall|i: int| p + 1 <= i < e implies CharClass::Alnum.holds(#[trigger] s[i]) by {
        assert(s[p + 1 + (i - p - 1)] == x[i - p - 1]);
    }
    lemma_span_exact(s, p + 1, CharClass::Alnum, x.len());
    assert(s.subrange(p + 1, e) =~= x);
}

/// Reading the text of a well-formed value, followed by anything that
/// cannot continue a number, gives that value back and takes all its text.
proof fn lemma_value_text(s: Seq<char>, p: int, v: JsonModel)
    requires
        well_formed(v),
        has_at(s, p, text_of(v)),
        ends_value(s, p + text_of(v).len()),
    ensures
        value_rule(s, p) == Ok::<(JsonModel, nat), (int, ErrorKind)>((v, text_of(v).len())),
    decreases v,
{
    let t = text_of(v);
    lemma_text_start(v);
    assert(s[p + 0] == t[0]);
    match v {
        JsonModel::Str(x) => {
            lemma_string_text(s, p, x);
        },
        JsonModel::Num(n) => {
            lemma_number_text(s, p, n);
        },
        JsonModel::Bool(b) => {
            if b {
                assert(s.subrange(p, p + 4) =~= true_word());
            } else {
                assert(s.subrange(p, p + 5) =~= false_word());
            }
        },
        JsonModel::Null => {
            assert(s.subrange(p, p + 4) =~= null_word());
        },
        JsonModel::Array(items) => {
            let body = items_text(items);
            lemma_at_split(s, p, seq!['['] + body, seq![']']);
            lemma_at_split(s, p, seq!['['], body);
            if items.len() == 0 {
                assert(s[p + 1 + 0] == seq![']'][0]);
                lemma_span_exact(s, p + 1, CharClass::Space, 0);
                assert(items =~= Seq::<JsonModel>::empty());
            } else {
                lemma_at_join(s, p + 1, body, seq![']']);
                lemma_items_start(items);
                assert(s[p + 1 + 0] == body[0]);
                lemma_span_exact(s, p + 1, CharClass::Space, 0);
                lemma_items_text(s, p + 1, Seq::empty(), items);
                assert(Seq::<JsonModel>::empty() + items =~= items);
            }
        },
        JsonModel::Object(entries) => {
            let body = entries_text(entries);
            lemma_at_split(s, p, seq!['{'] + body, seq!['}']);
            lemma_at_split(s, p, seq!['{'], body);
            if entries.len() == 0 {
                assert(s[p + 1 + 0] == seq!['}'][0]);
                lemma_span_exact(s, p + 1, CharClass::Space, 0);
                assert(entries =~= Seq::<(Seq<char>, JsonModel)>::empty());
            } else {
                lemma_at_join(s, p + 1, body, seq!['}']);
                assert(is_key(entries[0].0));
                if entries.len() > 1 {
                    assert(body[0] == key_text(entries[0].0)[0]);
                } else {
                    assert(body[0] == key_text(entries[0].0)[0]);
                }
                assert(s[p + 1 + 0] == body[0]);
                lemma_span_exact(s, p + 1, CharClass::Space, 0);
                lemma_members_text(s, p + 1, Seq::empty(), entries);
                assert(Seq::<(Seq<char>, JsonModel)>::empty() + entries =~= entries);
                lemma_sorted_entries(entries);
            }
        },
    }
}

/// Reading the text of the items of an array and its closing bracket gives
/// those items back.
proof fn lemma_items_text(s: Seq<char>, q: int, done: Seq<JsonModel>, items: Seq<JsonModel>)
    requires
        items.len() > 0,
        forall|i: int| 0 <= i < items.len() ==> well_formed(#[trigger] items[i]),
        has_at(s, q, items_text(items) + seq![']']),
    ensures
        items_rule(s, q, done) == Ok::<(Seq<JsonModel>, int), (int, ErrorKind)>((done + items, q + items_text(items).len() + 1)),
    decreases items,
{
    let x = items[0];
    let tx = text_of(x);
    assert(well_formed(x));
    if items.len() == 1 {
        lemma_at_split(s, q, tx, seq![']']);
        assert(s[q + tx.len() + 0] == seq![']'][0]);
        lemma_value_text(s, q, x);
        lemma_span_exact(s, q + tx.len(), CharClass::Space, 0);
        assert(done.push(x) =~= done + items);
    } else {
        let rest = items.subrange(1, items.len() as int);
        let sep = seq![',', ' '];
        let tail = items_text(rest);
        assert(items_text(items) == tx + sep + tail);
        lemma_at_split(s, q, tx + sep + tail, seq![']']);
        lemma_at_split(s, q, tx + sep, tail);
        lemma_at_split(s, q, tx, sep);
        let r = q + tx.len();
        assert(s[r + 0] == sep[0]);
        assert(s[r + 1] == sep[1]);
        lemma_value_text(s, q, x);
        lemma_span_exact(s, r, CharClass::Space, 0);
        assert forall|i: int| 0 <= i < rest.len() implies well_formed(#[trigger] rest[i]) by {
            assert(rest[i] == items[i + 1]);
        }
        lemma_items_start(rest);
        assert(s[r + 2 + 0] == tail[0]);
        lemma_span_exact(s, r + 1, CharClass::Space, 1);
        lemma_at_join(s, r + 2, tail, seq![']']);
        lemma_items_text(s, r + 2, done.push(x), rest);
        assert(done.push(x) + rest =~= done + items);
    }
}

/// Reading the text of the entries of an object and its closing brace gives
/// those entries back, in order.
proof fn lemma_members_text(
    s: Seq<char>,
    q: int,
    done: Seq<(Seq<char>, JsonModel)>,
    entries: Seq<(Seq<char>, JsonModel)>,
)
    requires
        entries.len() > 0,
        forall|i: int|
            0 <= i < entries.len() ==> is_key(#[trigger] entries[i].0) && well_formed(entries[i].1),
        has_at(s, q, entries_text(entries) + seq!['}']),
    ensures
        members_rule(s, q, done) == Ok::<(Seq<(Seq<char>, JsonModel)>, int), (int, ErrorKind)>((done + entries, q + entries_text(entries).len() + 1)),
    decreases entries,
{
    let k = entries[0].0;
    let x = entries[0].1;
    assert(is_key(k) && well_formed(x));
    assert(decreases_to!(entries => entries[0]));
    let kt = key_text(k);
    let tx = text_of(x);
    let head = kt + tx;
    let sep = seq![',', ' '];
    let rest = entries.subrange(1, entries.len() as int);
    let tail = entries_text(rest);
    let after: Seq<char> = if entries.len() == 1 { seq!['}'] } else { sep + tail + seq!['}'] };
    if entries.len() == 1 {
        assert(entries_text(entries) + seq!['}'] == head + after);
    } else {
        assert(entries_text(entries) == head + sep + tail);
        assert(entries_text(entries) + seq!['}'] =~= head + after);
    }
    lemma_at_split(s, q, head, after);
    lemma_at_split(s, q, kt, tx);
    lemma_at_split(s, q, seq!['"'] + k, seq!['"', ':', ' ']);
    lemma_at_split(s, q, seq!['"'], k);
    // the key
    let e = q + 1 + k.len();
    assert(s[q + 0] == seq!['"'][0]);
    assert(s[q + 1 + 0] == k[0]);
    assert(s[e + 0] == seq!['"', ':', ' '][0]);
    assert(s[e + 1] == seq!['"', ':', ' '][1]);
    assert(s[e + 2] == seq!['"', ':', ' '][2]);
    assert forall|i: int| q + 1 <= i < e implies CharClass::Alnum.holds(#[trigger] s[i]) by {
        assert(s[q + 1 + (i - q - 1)] == k[i - q - 1]);
    }
    lemma_span_exact(s, q + 1, CharClass::Alnum, k.len());
    assert(s.subrange(q + 1, e) =~= k);
    assert(key_rule(s, q) == Ok::<(Seq<char>, nat), (int, ErrorKind)>((k, (k.len() + 2) as nat)));
    lemma_span_exact(s, e + 1, CharClass::Space, 0);
    // the value
    let d = q + kt.len();
    lemma_text_start(x);
    assert(s[d + 0] == tx[0]);
    lemma_span_exact(s, e + 2, CharClass::Space, 1);
    let r = d + tx.len();
    assert(s[r + 0] == after[0]);
    lemma_value_text(s, d, x);
    lemma_span_exact(s, r, CharClass::Space, 0);
    if entries.len() == 1 {
        assert(done.push((k, x)) =~= done + entries);
    } else {
        assert(after == sep + (tail + seq!['}']));
        lemma_at_split(s, r, sep, tail + seq!['}']);
        assert(s[r + 1] == sep[1]);
        assert forall|i: int| 0 <= i < rest.len() implies is_key(#[trigger] rest[i].0) && well_formed(rest[i].1) by {
            assert(rest[i] == entries[i + 1]);
            assert(is_key(entries[i + 1].0) && well_formed(entries[i + 1].1));
        }
        assert(is_key(rest[0].0));
        if rest.len() > 1 {
            assert(tail[0] == key_text(rest[0].0)[0]);
        } else {
            assert(tail[0] == key_text(rest[0].0)[0]);
        }
        assert(tail.len() > 0);
        assert((tail + seq!['}'])[0] == tail[0]);
        assert(s[r + 2 + 0] == tail[0]);
        lemma_span_exact(s, r + 1, CharClass::Space, 1);
        lemma_members_text(s, r + 2, done.push((k, x)), rest);
        assert(done.push((k, x)) + rest =~= done + entries);
    }
}

/// Entries already in canonical order are their own canonical form.
proof fn lemma_sorted_entries(entries: Seq<(Seq<char>, JsonModel)>)
    requires
        keys_sorted(entries),
    ensures
        object_entries(entries) == entries,
    decreases entries.len(),
{
    if entries.len() > 0 {
        let init = entries.drop_last();
        assert forall|i: int, j: int| 0 <= i < j < init.len() implies key_less(#[trigger] init[i].0, #[trigger] init[j].0) by {
            assert(init[i] == entries[i] && init[j] == entries[j]);
        }
        lemma_sorted_entries(init);
        let last = entries.last();
        assert forall|j: int| 0 <= j < init.len() implies key_less(#[trigger] init[j].0, last.0) by {
            assert(init[j] == entries[j]);
            assert(key_less(entries[j].0, entries[entries.len() - 1].0));
        }
        lemma_insert_skips(init, last.0, last.1, init.len() as int);
        assert(init.subrange(0, init.len() as int) =~= init);
        assert(init.subrange(init.len() as int, init.len() as int) =~= Seq::<(Seq<char>, JsonModel)>::empty());
        assert(init.push(last) =~= entries);
    }
}

/// Writing a well-formed array or object and reading the text back gives
/// the same value.
pub proof fn lemma_round_trip(v: JsonModel)
    requires
        well_formed(v),
        v is Array || v is Object,
    ensures
        document_rule(text_of(v)) == Ok::<JsonModel, (int, ErrorKind)>(v),
{
    let s = text_of(v);
    lemma_text_start(v);
    assert(s[0] == '[' || s[0] == '{');
    lemma_span_exact(s, 0, CharClass::Space, 0);
    lemma_value_text(s, 0, v);
    lemma_span_exact(s, s.len() as int, CharClass::Space, 0);
}

/// Reading the same input twice gives the same value, or errors that agree
/// in where they stopped and in what they expected.
pub proof fn lemma_parse_deterministic(
    input: Seq<char>,
    first: Result<Json, JsonParseError>,
    second: Result<Json, JsonParseError>,
)
    requires
        parse_outcome(input, first),
        parse_outcome(input, second),
    ensures
        first is Ok <==> second is Ok,
        first is Ok ==> first->Ok_0.view() == second->Ok_0.view(),
        first is Err ==> first->Err_0.input@ == second->Err_0.input@ && first->Err_0.code
            == second->Err_0.code,
{
}

proof fn lemma_key_less_transitive(a: Seq<char>, b: Seq<char>, c: Seq<char>)
    requires
        key_less(a, b),
        key_less(b, c),
    ensures
        key_less(a, c),
    decreases a.len(),
{
    if a.len() > 0 && b.len() > 0 && c.len() > 0 && a[0] == b[0] && b[0] == c[0] {
        lemma_key_less_transitive(
            a.subrange(1, a.len() as int),
            b.subrange(1, b.len() as int),
            c.subrange(1, c.len() as int),
        );
    }
}

/// Every entry meets what an object of the grammar asks of it.
pub open spec fn entries_ok(entries: Seq<(Seq<char>, JsonModel)>) -> bool {
    forall|i: int| 0 <= i < entries.len() ==> is_key(#[trigger] entries[i].0) && well_formed(entries[i].1)
}

proof fn lemma_insert_above(
    entries: Seq<(Seq<char>, JsonModel)>,
    key: Seq<char>,
    value: JsonModel,
    low: Seq<char>,
)
    requires
        key_less(low, key),
        forall|j: int| 0 <= j < entries.len() ==> key_less(low, #[trigger] entries[j].0),
    ensures
        forall|i: int|
            0 <= i < insert_entry(entries, key, value).len() ==> key_less(
                low,
                #[trigger] insert_entry(entries, key, value)[i].0,
            ),
    decreases entries.len(),
{
    let r = insert_entry(entries, key, value);
    if entries.len() > 0 {
        let rest = entries.subrange(1, entries.len() as int);
        if entries[0].0 != key && !key_less(key, entries[0].0) {
            assert forall|j: int| 0 <= j < rest.len() implies key_less(low, #[trigger] rest[j].0) by {
                assert(rest[j] == entries[j + 1]);
            }
            lemma_insert_above(rest, key, value, low);
            let t = insert_entry(rest, key, value);
            assert forall|i: int| 0 <= i < r.len() implies key_less(low, #[trigger] r[i].0) by {
                if i > 0 {
                    assert(r[i] == t[i - 1]);
                }
            }
        } else {
            assert forall|i: int| 0 <= i < r.len() implies key_less(low, #[trigger] r[i].0) by {
                if i > 0 && entries[0].0 == key {
                    assert(r[i] == entries[i]);
                } else if i > 0 {
                    assert(r[i] == entries[i - 1]);
                }
            }
        }
    }
}

proof fn lemma_insert_sorted(entries: Seq<(Seq<char>, JsonModel)>, key: Seq<char>, value: JsonModel)
    requires
        keys_sorted(entries),
        entries_ok(entries),
        is_key(key),
        well_formed(value),
    ensures
        keys_sorted(insert_entry(entries, key, value)),
        entries_ok(insert_entry(entries, key, value)),
    decreases entries.len(),
{
    let r = insert_entry(entries, key, value);
    if entries.len() == 0 {
    } else if entries[0].0 == key {
        assert forall|i: int, j: int| 0 <= i < j < r.len() implies key_less(#[trigger] r[i].0, #[trigger] r[j].0) by {
            assert(r[j] == entries[j]);
            if i > 0 {
                assert(r[i] == entries[i]);
            }
        }
        assert forall|i: int| 0 <= i < r.len() implies is_key(#[trigger] r[i].0) && well_formed(r[i].1) by {
            if i > 0 {
                assert(r[i] == entries[i]);
            }
        }
    } else if key_less(key, entries[0].0) {
        assert forall|i: int, j: int| 0 <= i < j < r.len() implies key_less(#[trigger] r[i].0, #[trigger] r[j].0) by {
            assert(r[j] == entries[j - 1]);
            if i > 0 {
                assert(r[i] == entries[i - 1]);
            } else if j > 1 {
                assert(key_less(entries[0].0, entries[j - 1].0));
                lemma_key_less_transitive(key, entries[0].0, entries[j - 1].0);
            }
        }
        assert forall|i: int| 0 <= i < r.len() implies is_key(#[trigger] r[i].0) && well_formed(r[i].1) by {
            if i > 0 {
                assert(r[i] == entries[i - 1]);
            }
        }
    } else {
        let rest = entries.subrange(1, entries.len() as int);
        lemma_key_less_total(key, entries[0].0);
        assert forall|i: int, j: int| 0 <= i < j < rest.len() implies key_less(#[trigger] rest[i].0, #[trigger] rest[j].0) by {
            assert(rest[i] == entries[i + 1] && rest[j] == entries[j + 1]);
        }
        assert forall|i: int| 0 <= i < rest.len() implies is_key(#[trigger] rest[i].0) && well_formed(rest[i].1) by {
            assert(rest[i] == entries[i + 1]);
        }
        lemma_insert_sorted(rest, key, value);
        assert forall|j: int| 0 <= j < rest.len() implies key_less(entries[0].0, #[trigger] rest[j].0) by {
            assert(rest[j] == entries[j + 1]);
        }
        lemma_insert_above(rest, key, value, entries[0].0);
        let t = insert_entry(rest, key, value);
        assert forall|i: int, j: int| 0 <= i < j < r.len() implies key_less(#[trigger] r[i].0, #[trigger] r[j].0) by {
            assert(r[j] == t[j - 1]);
            if i > 0 {
                assert(r[i] == t[i - 1]);
            }
        }
        assert forall|i: int| 0 <= i < r.len() implies is_key(#[trigger] r[i].0) && well_formed(r[i].1) by {
            if i > 0 {
                assert(r[i] == t[i - 1]);
            }
        }
    }
}

proof fn lemma_object_entries_sorted(pairs: Seq<(Seq<char>, JsonModel)>)
    requires
        entries_ok(pairs),
    ensures
        keys_sorted(object_entries(pairs)),
        entries_ok(object_entries(pairs)),
    decreases pairs.len(),
{
    if pairs.len() > 0 {
        let init = pairs.drop_last();
        assert forall|i: int| 0 <= i < init.len() implies is_key(#[trigger] init[i].0) && well_formed(init[i].1) by {
            assert(init[i] == pairs[i]);
        }
        lemma_object_entries_sorted(init);
        assert(is_key(pairs[pairs.len() - 1].0) && well_formed(pairs[pairs.len() - 1].1));
        lemma_insert_sorted(object_entries(init), pairs.last().0, pairs.last().1);
    }
}

proof fn lemma_strip_leading(d: Seq<char>)
    requires
        all_digits(d),
    ensures
        all_digits(strip_leading_zeros(d)),
        strip_leading_zeros(d).len() == 0 || strip_leading_zeros(d)[0] != '0',
    decreases d.len(),
{
    if d.len() > 0 && d[0] == '0' {
        let rest = d.subrange(1, d.len() as int);
        assert forall|i: int| 0 <= i < rest.len() implies is_digit(#[trigger] rest[i]) by {
            assert(rest[i] == d[i + 1]);
        }
        lemma_strip_leading(rest);
    }
}

proof fn lemma_strip_trailing(d: Seq<char>)
    requires
        all_digits(d),
    ensures
        all_digits(strip_trailing_zeros(d)),
        strip_trailing_zeros(d).len() == 0 || strip_trailing_zeros(d).last() != '0',
    decreases d.len(),
{
    if d.len() > 0 && d.last() == '0' {
        let rest = d.drop_last();
        assert forall|i: int| 0 <= i < rest.len() implies is_digit(#[trigger] rest[i]) by {
            assert(rest[i] == d[i]);
        }
        lemma_strip_trailing(rest);
    }
}

proof fn lemma_digits_canonical(negative: bool, integer: Seq<char>, fraction: Seq<char>)
    requires
        all_digits(integer),
        all_digits(fraction),
    ensures
        canonical_number(number_from_digits(negative, integer, fraction)),
{
    lemma_strip_leading(integer);
    lemma_strip_trailing(fraction);
    let i = strip_leading_zeros(integer);
    if i.len() == 0 {
        assert(is_digit(seq!['0'][0]));
    }
}

proof fn lemma_run_digits(s: Seq<char>, a: int, b: int)
    requires
        0 <= a <= b <= s.len(),
        forall|i: int| a <= i < b ==> CharClass::Digit.holds(#[trigger] s[i]),
    ensures
        all_digits(s.subrange(a, b)),
{
    assert forall|i: int| 0 <= i < b - a implies is_digit(#[trigger] s.subrange(a, b)[i]) by {
        assert(CharClass::Digit.holds(s[a + i]));
    }
}

proof fn lemma_number_well_formed(s: Seq<char>, p: int)
    requires
        0 <= p <= s.len(),
        number_rule(s, p) is Ok,
    ensures
        canonical_number(number_rule(s, p)->Ok_0.0),
{
    let negative = 0 <= p < s.len() && s[p] == '-';
    let d = if negative { p + 1 } else { p };
    lemma_span(s, d, CharClass::Digit);
    let e = d + span(s, d, CharClass::Digit);
    lemma_run_digits(s, d, e);
    if 0 <= e < s.len() && s[e] == '.' {
        lemma_span(s, e + 1, CharClass::Digit);
        let f = span(s, e + 1, CharClass::Digit);
        lemma_run_digits(s, e + 1, e + 1 + f);
        lemma_digits_canonical(negative, s.subrange(d, e), s.subrange(e + 1, e + 1 + f));
    }
    lemma_digits_canonical(negative, s.subrange(d, e), Seq::empty());
}

proof fn lemma_string_well_formed(s: Seq<char>, p: int)
    requires
        0 <= p <= s.len(),
        string_rule(s, p) is Ok,
    ensures
        forall|i: int| 0 <= i < string_rule(s, p)->Ok_0.0.len() ==> is_alnum(#[trigger] string_rule(s, p)->Ok_0.0[i]),
{
    lemma_span(s, p + 1, CharClass::Alnum);
    let t = string_rule(s, p)->Ok_0.0;
    assert forall|i: int| 0 <= i < t.len() implies is_alnum(#[trigger] t[i]) by {
        assert(CharClass::Alnum.holds(s[p + 1 + i]));
    }
}

proof fn lemma_key_well_formed(s: Seq<char>, p: int)
    requires
        0 <= p <= s.len(),
        key_rule(s, p) is Ok,
    ensures
        is_key(key_rule(s, p)->Ok_0.0),
{
    lemma_string_well_formed(s, p);
    lemma_span(s, p + 1, CharClass::Alnum);
    assert(is_alpha(s[p + 1]));
}

/// Whatever a value rule reads is well-formed.
proof fn lemma_value_well_formed(s: Seq<char>, p: int)
    requires
        0 <= p <= s.len(),
    ensures
        value_rule(s, p) is Ok ==> well_formed(value_rule(s, p)->Ok_0.0),
        value_rule(s, p) is Ok ==> p + value_rule(s, p)->Ok_0.1 <= s.len(),
    decreases s.len() - p, 1int,
{
    if 0 <= p < s.len() {
        if s[p] == '"' {
            if string_rule(s, p) is Ok {
                lemma_string_well_formed(s, p);
                lemma_span(s, p + 1, CharClass::Alnum);
            }
        } else if s[p] == '-' || is_digit(s[p]) {
            if number_rule(s, p) is Ok {
                lemma_number_well_formed(s, p);
                let negative = s[p] == '-';
                let d = if negative { p + 1 } else { p };
                lemma_span(s, d, CharClass::Digit);
                let e = d + span(s, d, CharClass::Digit);
                if 0 <= e < s.len() && s[e] == '.' {
                    lemma_span(s, e + 1, CharClass::Digit);
                }
            }
        } else if s[p] == '[' {
            lemma_span(s, p + 1, CharClass::Space);
            let q = p + 1 + span(s, p + 1, CharClass::Space);
            if !(q < s.len() && s[q] == ']') {
                lemma_items_well_formed(s, q, Seq::empty());
            }
        } else if s[p] == '{' {
            lemma_span(s, p + 1, CharClass::Space);
            let q = p + 1 + span(s, p + 1, CharClass::Space);
            if !(q < s.len() && s[q] == '}') {
                lemma_members_well_formed(s, q, Seq::empty());
                let r = members_rule(s, q, Seq::empty());
                if r is Ok {
                    lemma_object_entries_sorted(r->Ok_0.0);
                }
            }
        }
    }
}

proof fn lemma_items_well_formed(s: Seq<char>, q: int, done: Seq<JsonModel>)
    requires
        0 <= q <= s.len(),
        forall|i: int| 0 <= i < done.len() ==> well_formed(#[trigger] done[i]),
    ensures
        items_rule(s, q, done) is Ok ==> forall|i: int|
            0 <= i < items_rule(s, q, done)->Ok_0.0.len() ==> well_formed(#[trigger] items_rule(s, q, done)->Ok_0.0[i]),
        items_rule(s, q, done) is Ok ==> q < items_rule(s, q, done)->Ok_0.1 <= s.len(),
    decreases s.len() - q, 2int,
{
    lemma_value_well_formed(s, q);
    if value_rule(s, q) is Ok {
        let (v, n) = value_rule(s, q)->Ok_0;
        lemma_span(s, q + n, CharClass::Space);
        let r = q + n + span(s, q + n, CharClass::Space);
        let next = done.push(v);
        assert forall|i: int| 0 <= i < next.len() implies well_formed(#[trigger] next[i]) by {
            if i < done.len() {
                assert(next[i] == done[i]);
            }
        }
        if 0 <= r < s.len() && s[r] == ',' {
            lemma_span(s, r + 1, CharClass::Space);
            let t = r + 1 + span(s, r + 1, CharClass::Space);
            lemma_items_well_formed(s, t, next);
        }
    }
}

proof fn lemma_members_well_formed(s: Seq<char>, q: int, done: Seq<(Seq<char>, JsonModel)>)
    requires
        0 <= q <= s.len(),
        entries_ok(done),
    ensures
        members_rule(s, q, done) is Ok ==> entries_ok(members_rule(s, q, done)->Ok_0.0),
        members_rule(s, q, done) is Ok ==> q < members_rule(s, q, done)->Ok_0.1 <= s.len(),
    decreases s.len() - q, 2int,
{
    if key_rule(s, q) is Ok {
        let (k, kn) = key_rule(s, q)->Ok_0;
        lemma_key_well_formed(s, q);
        lemma_span(s, q + 1, CharClass::Alnum);
        lemma_span(s, q + kn, CharClass::Space);
        let c = q + kn + span(s, q + kn, CharClass::Space);
        if 0 <= c < s.len() && s[c] == ':' {
            lemma_span(s, c + 1, CharClass::Space);
            let d = c + 1 + span(s, c + 1, CharClass::Space);
            lemma_value_well_formed(s, d);
            if value_rule(s, d) is Ok {
                let (v, n) = value_rule(s, d)->Ok_0;
                lemma_span(s, d + n, CharClass::Space);
                let r = d + n + span(s, d + n, CharClass::Space);
                let next = done.push((k, v));
                assert forall|i: int| 0 <= i < next.len() implies is_key(#[trigger] next[i].0) && well_formed(next[i].1) by {
                    if i < done.len() {
                        assert(next[i] == done[i]);
                    }
                }
                if 0 <= r < s.len() && s[r] == ',' {
                    lemma_span(s, r + 1, CharClass::Space);
                    let t = r + 1 + span(s, r + 1, CharClass::Space);
                    lemma_members_well_formed(s, t, next);
                }
            }
        }
    }
}

/// Every value that reading a document gives is a well-formed array or
/// object.
pub proof fn lemma_parsed_well_formed(s: Seq<char>)
    requires
        document_rule(s) is Ok,
    ensures
        well_formed(document_rule(s)->Ok_0),
        document_rule(s)->Ok_0 is Array || document_rule(s)->Ok_0 is Object,
{
    lemma_span(s, 0, CharClass::Space);
    let p = span(s, 0, CharClass::Space) as int;
    lemma_value_well_formed(s, p);
}

/// Writing what was read from a document and reading that text again gives
/// the same value: the round trip holds for every value the grammar builds.
pub proof fn lemma_reread(s: Seq<char>)
    requires
        document_rule(s) is Ok,
    ensures
        document_rule(text_of(document_rule(s)->Ok_0)) == document_rule(s),
{
    lemma_parsed_well_formed(s);
    lemma_round_trip(document_rule(s)->Ok_0);
}

/// Reading the text that `Json::to_string` wrote for a well-formed array or
/// object gives a value with the same model.
pub proof fn lemma_parse_written(v: Json, written: Seq<char>, r: Result<Json, JsonParseError>)
    requires
        well_formed(v.view()),
        v.view() is Array || v.view() is Object,
        written == text_of(v.view()),
        parse_outcome(written, r),
    ensures
        r is Ok,
        r->Ok_0.view() == v.view(),
{
    lemma_round_trip(v.view());
}

} // verus!
