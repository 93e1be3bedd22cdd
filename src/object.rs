//! Objects in canonical form: entries sorted by key, one entry per key.
use vstd::prelude::*;

use crate::text::chars_of;
use crate::value::{entry_views_of, lemma_entry_views_of, Json, JsonModel};

verus! {

/// The order of keys: character by character, a prefix first.
pub open spec fn key_less(a: Seq<char>, b: Seq<char>) -> bool
    decreases a.len(),
{
    if b.len() == 0 {
        false
    } else if a.len() == 0 {
        true
    } else if a[0] != b[0] {
        a[0] < b[0]
    } else {
        key_less(a.subrange(1, a.len() as int), b.subrange(1, b.len() as int))
    }
}

/// `entries` with `key` bound to `value`: the entry of that key replaced,
/// or a new entry put where the order of keys puts it.
pub open spec fn insert_entry(
    entries: Seq<(Seq<char>, JsonModel)>,
    key: Seq<char>,
    value: JsonModel,
) -> Seq<(Seq<char>, JsonModel)>
    decreases entries.len(),
{
    if entries.len() == 0 {
        seq![(key, value)]
    } else if entries[0].0 == key {
        seq![(key, value)] + entries.subrange(1, entries.len() as int)
    } else if key_less(key, entries[0].0) {
        seq![(key, value)] + entries
    } else {
        seq![entries[0]] + insert_entry(entries.subrange(1, entries.len() as int), key, value)
    }
}

/// The canonical entries of an object written with `pairs`, in order.
pub open spec fn object_entries(pairs: Seq<(Seq<char>, JsonModel)>) -> Seq<(Seq<char>, JsonModel)>
    decreases pairs.len(),
{
    if pairs.len() == 0 {
        Seq::empty()
    } else {
        insert_entry(object_entries(pairs.drop_last()), pairs.last().0, pairs.last().1)
    }
}


pub proof fn lemma_key_less_irreflexive(a: Seq<char>)
    ensures
        !key_less(a, a),
    decreases a.len(),
{
    if a.len() > 0 {
        lemma_key_less_irreflexive(a.subrange(1, a.len() as int));
    }
}

pub proof fn lemma_key_less_asymmetric(a: Seq<char>, b: Seq<char>)
    ensures
        !(key_less(a, b) && key_less(b, a)),
    decreases a.len(),
{
    if a.len() > 0 && b.len() > 0 && a[0] == b[0] {
        lemma_key_less_asymmetric(a.subrange(1, a.len() as int), b.subrange(1, b.len() as int));
    }
}

pub proof fn lemma_key_less_total(a: Seq<char>, b: Seq<char>)
    ensures
        a == b || key_less(a, b) || key_less(b, a),
    decreases a.len(),
{
    if a.len() > 0 && b.len() > 0 && a[0] == b[0] {
        let a1 = a.subrange(1, a.len() as int);
        let b1 = b.subrange(1, b.len() as int);
        lemma_key_less_total(a1, b1);
        if a1 == b1 {
            assert(a =~= seq![a[0]] + a1);
            assert(b =~= seq![b[0]] + b1);
        }
    } else if a.len() > 0 && b.len() > 0 {
        assert(a[0] < b[0] || b[0] < a[0]);
    } else if a.len() == 0 && b.len() == 0 {
        assert(a =~= b);
    }
}

/// Inserting `key` skips every entry before `i`, all of whose keys come
/// before `key`.
pub proof fn lemma_insert_skips(
    entries: Seq<(Seq<char>, JsonModel)>,
    key: Seq<char>,
    value: JsonModel,
    i: int,
)
    requires
        0 <= i <= entries.len(),
        forall|j: int| 0 <= j < i ==> key_less(#[trigger] entries[j].0, key),
    ensures
        insert_entry(entries, key, value) == entries.subrange(0, i) + insert_entry(
            entries.subrange(i, entries.len() as int),
            key,
            value,
        ),
    decreases i,
{
    if i > 0 {
        let rest = entries.subrange(1, entries.len() as int);
        lemma_key_less_irreflexive(key);
        lemma_key_less_asymmetric(entries[0].0, key);
        assert(entries[0].0 != key);
        lemma_insert_skips(rest, key, value, i - 1);
        assert(rest.subrange(i - 1, rest.len() as int) =~= entries.subrange(i, entries.len() as int));
        assert(entries.subrange(0, i) =~= seq![entries[0]] + rest.subrange(0, i - 1));
    } else {
        assert(entries.subrange(0, 0) + entries.subrange(0, entries.len() as int) =~= entries);
    }
}

/// Whether key `a` comes before key `b`.
fn key_before(a: &Vec<char>, b: &Vec<char>) -> (r: bool)
    ensures
        r == key_less(a@, b@),
{
    let mut i: usize = 0;
    assert(a@.subrange(0, a.len() as int) =~= a@);
    assert(b@.subrange(0, b.len() as int) =~= b@);
    while i < a.len() && i < b.len() && a[i] == b[i]
        invariant
            i <= a.len(),
            i <= b.len(),
            key_less(a@, b@) == key_less(
                a@.subrange(i as int, a.len() as int),
                b@.subrange(i as int, b.len() as int),
            ),
        decreases a.len() - i,
    {
        let ghost a1 = a@.subrange(i as int, a.len() as int);
        let ghost b1 = b@.subrange(i as int, b.len() as int);
        assert(a1.subrange(1, a1.len() as int) =~= a@.subrange(i + 1, a.len() as int));
        assert(b1.subrange(1, b1.len() as int) =~= b@.subrange(i + 1, b.len() as int));
        i += 1;
    }
    if i == b.len() {
        false
    } else if i == a.len() {
        true
    } else {
        a[i] < b[i]
    }
}

/// Binds `key` to `value` in the canonical entries `entries`.
pub fn insert_sorted(entries: &mut Vec<(String, Json)>, key: String, value: Json)
    ensures
        entry_views_of(final(entries)@) == insert_entry(
            entry_views_of(old(entries)@),
            key@,
            value.view(),
        ),
{
    let ghost before = entry_views_of(entries@);
    proof {
        lemma_entry_views_of(entries@);
    }
    let key_chars = chars_of(key.as_str());
    let mut i: usize = 0;
    loop
        invariant
            i <= entries.len(),
            key_chars@ == key@,
            before == entry_views_of(entries@),
            before.len() == entries.len(),
            forall|j: int| 0 <= j < i ==> key_less(#[trigger] before[j].0, key@),
            forall|j: int| 0 <= j < entries.len() ==> #[trigger] before[j] == (
                entries@[j].0@,
                entries@[j].1.view(),
            ),
        ensures
            i < entries.len() ==> !key_less(before[i as int].0, key@),
        decreases entries.len() - i,
    {
        if i == entries.len() {
            break;
        }
        let entry_key = chars_of(entries[i].0.as_str());
        let earlier = key_before(&entry_key, &key_chars);
        if !earlier {
            break;
        }
        assert(before[i as int] == (entries@[i as int].0@, entries@[i as int].1.view()));
        i += 1;
    }
    proof {
        lemma_insert_skips(before, key@, value.view(), i as int);
    }
    let ghost tail = before.subrange(i as int, before.len() as int);
    if i < entries.len() && entries[i].0 == key {
        assert(tail[0] == before[i as int]);
        assert(insert_entry(tail, key@, value.view()) == seq![(key@, value.view())] + tail.subrange(
            1,
            tail.len() as int,
        ));
        entries.set(i, (key, value));
        proof {
            lemma_entry_views_of(entries@);
            assert(entry_views_of(entries@) =~= before.subrange(0, i as int) + insert_entry(
                tail,
                key@,
                value.view(),
            ));
        }
    } else {
        proof {
            if i < before.len() {
                assert(before[i as int].0 != key@);
                lemma_key_less_total(key@, before[i as int].0);
                assert(tail[0] == before[i as int]);
            }
        }
        entries.insert(i, (key, value));
        proof {
            lemma_entry_views_of(entries@);
            assert(entry_views_of(entries@) =~= before.subrange(0, i as int) + insert_entry(
                tail,
                key@,
                value.view(),
            ));
        }
    }
}

impl Json {
    /// An object with the given pairs; a later pair replaces an earlier
    /// pair with the same key.
    pub fn object(pairs: Vec<(String, Json)>) -> (r: Json)
        ensures
            r.view() == JsonModel::Object(object_entries(entry_views_of(pairs@))),
    {
        let ghost all = entry_views_of(pairs@);
        proof {
            lemma_entry_views_of(pairs@);
        }
        let mut rest = pairs;
        let mut entries: Vec<(String, Json)> = Vec::new();
        let ghost mut n: int = 0;
        while rest.len() > 0
            invariant
                0 <= n <= all.len(),
                all.len() == n + rest.len(),
                forall|j: int| 0 <= j < rest.len() ==> all[n + j] == (#[trigger] rest@[j].0@, rest@[j].1.view()),
                entry_views_of(entries@) == object_entries(all.take(n)),
            decreases rest.len(),
        {
            let (k, v) = rest.remove(0);
            proof {
                assert(all[n + 0] == (k@, v.view()));
                assert(all.take(n + 1).drop_last() =~= all.take(n));
                assert(forall|j: int| 0 <= j < rest.len() ==> all[n + 1 + j] == (#[trigger] rest@[j].0@, rest@[j].1.view()));
            }
            insert_sorted(&mut entries, k, v);
            proof {
                n = n + 1;
            }
        }
        assert(all.take(n) =~= all);
        Json::Object(entries)
    }
}

} // verus!
