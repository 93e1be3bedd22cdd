//! Writing a value as single-line text.
use vstd::prelude::*;

use crate::grammar::{false_word, null_word, true_word};
use crate::value::{entry_views_of, lemma_entry_views_of, lemma_views_of, views_of, Json, JsonModel, NumModel, Number};

verus! {

/// A number's text: a minus if negative, the integer digits, then a dot and
/// the fraction digits if there are any.
pub open spec fn number_text(n: NumModel) -> Seq<char> {
    (if n.negative { seq!['-'] } else { Seq::empty() }) + n.integer + (if n.fraction.len() > 0 {
        seq!['.'] + n.fraction
    } else {
        Seq::empty()
    })
}

/// The text of a value, on one line, with `, ` between items and `: ` after
/// each key.
pub open spec fn text_of(v: JsonModel) -> Seq<char>
    decreases v,
{
    match v {
        JsonModel::Str(t) => seq!['"'] + t + seq!['"'],
        JsonModel::Num(n) => number_text(n),
        JsonModel::Bool(b) => if b { true_word() } else { false_word() },
        JsonModel::Array(items) => seq!['['] + items_text(items) + seq![']'],
        JsonModel::Object(entries) => seq!['{'] + entries_text(entries) + seq!['}'],
        JsonModel::Null => null_word(),
    }
}

/// A key in quotes and the `: ` after it.
pub open spec fn key_text(key: Seq<char>) -> Seq<char> {
    seq!['"'] + key + seq!['"', ':', ' ']
}

/// The text of the items of an array, separated by `, `.
pub open spec fn items_text(items: Seq<JsonModel>) -> Seq<char>
    decreases items,
{
    if items.len() == 0 {
        Seq::empty()
    } else if items.len() == 1 {
        text_of(items[0])
    } else {
        text_of(items[0]) + seq![',', ' '] + items_text(items.subrange(1, items.len() as int))
    }
}

/// The text of the entries of an object, separated by `, `: each key in
/// quotes, `: `, its value.
pub open spec fn entries_text(entries: Seq<(Seq<char>, JsonModel)>) -> Seq<char>
    decreases entries,
{
    if entries.len() == 0 {
        Seq::empty()
    } else if entries.len() == 1 {
        key_text(entries[0].0) + text_of(entries[0].1)
    } else {
        key_text(entries[0].0) + text_of(entries[0].1) + seq![',', ' '] + entries_text(
            entries.subrange(1, entries.len() as int),
        )
    }
}

proof fn lemma_items_text_push(items: Seq<JsonModel>, item: JsonModel)
    ensures
        items_text(items.push(item)) == if items.len() == 0 {
            text_of(item)
        } else {
            items_text(items) + seq![',', ' '] + text_of(item)
        },
    decreases items.len(),
{
    let all = items.push(item);
    if items.len() >= 1 {
        let rest = items.subrange(1, items.len() as int);
        lemma_items_text_push(rest, item);
        assert(all.subrange(1, all.len() as int) =~= rest.push(item));
        if items.len() >= 2 {
            assert(items_text(all) =~= items_text(items) + seq![',', ' '] + text_of(item));
        } else {
            assert(rest.push(item) =~= seq![item]);
            assert(items_text(all) =~= items_text(items) + seq![',', ' '] + text_of(item));
        }
    }
}

proof fn lemma_entries_text_push(entries: Seq<(Seq<char>, JsonModel)>, entry: (Seq<char>, JsonModel))
    ensures
        entries_text(entries.push(entry)) == if entries.len() == 0 {
            key_text(entry.0) + text_of(entry.1)
        } else {
            entries_text(entries) + seq![',', ' '] + key_text(entry.0) + text_of(entry.1)
        },
    decreases entries.len(),
{
    let all = entries.push(entry);
    if entries.len() >= 1 {
        let rest = entries.subrange(1, entries.len() as int);
        lemma_entries_text_push(rest, entry);
        assert(all.subrange(1, all.len() as int) =~= rest.push(entry));
        if entries.len() >= 2 {
            assert(entries_text(all) =~= entries_text(entries) + seq![',', ' '] + key_text(entry.0)
                + text_of(entry.1));
        } else {
            assert(rest.push(entry) =~= seq![entry]);
            assert(entries_text(all) =~= entries_text(entries) + seq![',', ' '] + key_text(entry.0)
                + text_of(entry.1));
        }
    }
}

/// Appends `text` to `out`.
fn put(out: &mut String, text: &str)
    ensures
        final(out)@ == old(out)@ + text@,
{
    out.append(text);
}

/// Appends the text of `n` to `out`.
fn write_number(n: &Number, out: &mut String)
    ensures
        final(out)@ == old(out)@ + number_text(n.view()),
{
    let ghost start = out@;
    if n.negative {
        put(out, "-");
        proof {
            reveal_strlit("-");
        }
    }
    assert(out@ == start + (if n.negative { seq!['-'] } else { Seq::<char>::empty() }));
    put(out, n.integer.as_str());
    if !n.fraction.as_str().is_empty() {
        put(out, ".");
        proof {
            reveal_strlit(".");
        }
        put(out, n.fraction.as_str());
    }
    assert(out@ =~= start + number_text(n.view()));
}

impl Json {
    /// The text of this value: single-line, with `, ` between items and
    /// `: ` after each key; objects list their entries in key order.
    pub fn to_string(&self) -> (r: String)
        ensures
            r@ == text_of(self.view()),
    {
        let mut out = String::new();
        self.write_to(&mut out);
        assert(out@ =~= text_of(self.view()));
        out
    }

    /// Appends the text of this value to `out`.
    pub fn write_to(&self, out: &mut String)
        ensures
            final(out)@ == old(out)@ + text_of(self.view()),
        decreases self,
    {
        let ghost start = out@;
        match self {
            Json::String(t) => {
                put(out, "\"");
                put(out, t.as_str());
                put(out, "\"");
                proof {
                    reveal_strlit("\"");
                }
                assert(out@ =~= start + text_of(self.view()));
            },
            Json::Number(n) => {
                write_number(n, out);
            },
            Json::Boolean(b) => {
                if *b {
                    put(out, "true");
                    proof {
                        reveal_strlit("true");
                    }
                    assert(out@ =~= start + text_of(self.view()));
                } else {
                    put(out, "false");
                    proof {
                        reveal_strlit("false");
                    }
                    assert(out@ =~= start + text_of(self.view()));
                }
            },
            Json::Null => {
                put(out, "null");
                proof {
                    reveal_strlit("null");
                }
                assert(out@ =~= start + text_of(self.view()));
            },
            Json::Array(items) => {
                put(out, "[");
                proof {
                    reveal_strlit("[");
                    reveal_strlit(", ");
                    reveal_strlit("]");
                    lemma_views_of(items@);
                }
                let ghost models = views_of(items@);
                let mut i: usize = 0;
                while i < items.len()
                    invariant
                        i <= items.len(),
                        *self == Json::Array(*items),
                        models == views_of(items@),
                        models.len() == items.len(),
                        forall|j: int| 0 <= j < items.len() ==> #[trigger] models[j] == items@[j].view(),
                        out@ == start + seq!['['] + items_text(models.take(i as int)),
                    decreases items.len() - i,
                {
                    if i > 0 {
                        put(out, ", ");
                    }
                    let ghost mid = out@;
                    proof {
                        reveal_strlit(", ");
                        assert(decreases_to!(*self => self->Array_0));
                        assert(decreases_to!(*items => items[i as int]));
                    }
                    items[i].write_to(out);
                    assert(out@ == mid + text_of(models[i as int]));
                    proof {
                        lemma_items_text_push(models.take(i as int), models[i as int]);
                        assert(models.take(i + 1) =~= models.take(i as int).push(models[i as int]));
                    }
                    i += 1;
                }
                put(out, "]");
                assert(models.take(i as int) =~= models);
                assert(out@ =~= start + text_of(self.view()));
            },
            Json::Object(entries) => {
                put(out, "{");
                proof {
                    reveal_strlit("{");
                    reveal_strlit(", ");
                    reveal_strlit("\"");
                    reveal_strlit("\": ");
                    reveal_strlit("}");
                    lemma_entry_views_of(entries@);
                }
                let ghost models = entry_views_of(entries@);
                let mut i: usize = 0;
                while i < entries.len()
                    invariant
                        i <= entries.len(),
                        *self == Json::Object(*entries),
                        models == entry_views_of(entries@),
                        models.len() == entries.len(),
                        forall|j: int|
                            0 <= j < entries.len() ==> #[trigger] models[j] == (
                                entries@[j].0@,
                                entries@[j].1.view(),
                            ),
                        out@ == start + seq!['{'] + entries_text(models.take(i as int)),
                    decreases entries.len() - i,
                {
                    if i > 0 {
                        put(out, ", ");
                    }
                    put(out, "\"");
                    put(out, entries[i].0.as_str());
                    put(out, "\": ");
                    let ghost mid = out@;
                    proof {
                        reveal_strlit(", ");
                        reveal_strlit("\"");
                        reveal_strlit("\": ");
                        assert(decreases_to!(*self => self->Object_0));
                        assert(decreases_to!(*entries => entries[i as int]));
                        assert(decreases_to!(entries[i as int] => entries[i as int].1));
                    }
                    entries[i].1.write_to(out);
                    assert(out@ == mid + text_of(models[i as int].1));
                    proof {
                        lemma_entries_text_push(models.take(i as int), models[i as int]);
                        assert(models.take(i + 1) =~= models.take(i as int).push(models[i as int]));
                    }
                    i += 1;
                }
                put(out, "}");
                assert(models.take(i as int) =~= models);
                assert(out@ =~= start + text_of(self.view()));
            },
        }
    }
}

} // verus!
