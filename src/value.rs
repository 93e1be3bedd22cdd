use vstd::prelude::*;

verus! {

/// A decimal number kept as its digits: `integer` has no leading zero
/// (a zero integer part is the single digit `0`) and `fraction` has no
/// trailing zero.
#[derive(Debug, Clone, PartialEq)]
pub struct Number {
    pub negative: bool,
    pub integer: String,
    pub fraction: String,
}

/// The mathematical content of a `Number`.
pub struct NumModel {
    pub negative: bool,
    pub integer: Seq<char>,
    pub fraction: Seq<char>,
}

/// The mathematical content of a `Json` value.
pub enum JsonModel {
    Str(Seq<char>),
    Num(NumModel),
    Bool(bool),
    Array(Seq<JsonModel>),
    Object(Seq<(Seq<char>, JsonModel)>),
    Null,
}

/// A JSON value. `Json::parse` and `Json::object` keep the entries of an
/// object sorted by key, one entry per key, so that `==` compares objects
/// as maps.
#[derive(Debug, PartialEq)]
pub enum Json {
    String(String),
    Number(Number),
    Boolean(bool),
    Array(Vec<Json>),
    Object(Vec<(String, Json)>),
    Null,
}

impl Number {
    pub open spec fn view(&self) -> NumModel {
        NumModel { negative: self.negative, integer: self.integer@, fraction: self.fraction@ }
    }
}

impl Json {
    /// The model of this value.
    pub open spec fn view(&self) -> JsonModel
        decreases self,
    {
        match self {
            Json::String(s) => JsonModel::Str(s@),
            Json::Number(n) => JsonModel::Num(n.view()),
            Json::Boolean(b) => JsonModel::Bool(*b),
            Json::Array(items) => JsonModel::Array(views_of(items@)),
            Json::Object(entries) => JsonModel::Object(entry_views_of(entries@)),
            Json::Null => JsonModel::Null,
        }
    }
}

/// The models of a sequence of values, in order.
pub open spec fn views_of(items: Seq<Json>) -> Seq<JsonModel>
    decreases items,
{
    if items.len() == 0 {
        Seq::empty()
    } else {
        seq![items[0].view()] + views_of(items.subrange(1, items.len() as int))
    }
}

/// The models of a sequence of object entries, in order.
pub open spec fn entry_views_of(entries: Seq<(String, Json)>) -> Seq<(Seq<char>, JsonModel)>
    decreases entries,
{
    if entries.len() == 0 {
        Seq::empty()
    } else {
        seq![(entries[0].0@, entries[0].1.view())] + entry_views_of(
            entries.subrange(1, entries.len() as int),
        )
    }
}

} // verus!

verus! {

pub proof fn lemma_views_of(items: Seq<Json>)
    ensures
        views_of(items).len() == items.len(),
        forall|j: int| 0 <= j < items.len() ==> #[trigger] views_of(items)[j] == items[j].view(),
    decreases items.len(),
{
    if items.len() > 0 {
        lemma_views_of(items.subrange(1, items.len() as int));
    }
}

pub proof fn lemma_entry_views_of(entries: Seq<(String, Json)>)
    ensures
        entry_views_of(entries).len() == entries.len(),
        forall|j: int|
            0 <= j < entries.len() ==> #[trigger] entry_views_of(entries)[j] == (
                entries[j].0@,
                entries[j].1.view(),
            ),
    decreases entries.len(),
{
    if entries.len() > 0 {
        lemma_entry_views_of(entries.subrange(1, entries.len() as int));
    }
}

} // verus!

verus! {

pub proof fn lemma_views_push(items: Seq<Json>, item: Json)
    ensures
        views_of(items.push(item)) == views_of(items).push(item.view()),
{
    lemma_views_of(items);
    lemma_views_of(items.push(item));
    assert(views_of(items.push(item)) =~= views_of(items).push(item.view()));
}

} // verus!
