//! A JSON value: error details, event payloads and recorded provenance.
use vstd::prelude::*;
use crate::text::Text;

verus! {

/// A JSON value. A number is kept as it was written, and the fields of an
/// object in the order in which they were given.
#[derive(Debug, PartialEq, Eq)]
pub enum Json {
    Null,
    Bool(bool),
    Number(String),
    Text(String),
    Array(Vec<Json>),
    Object(Vec<(String, Json)>),
    /// A value that is kept as JSON text.
    Raw(String),
}

/// The mathematical value of a [`Json`].
#[verifier::ext_equal]
pub enum JsonValue {
    Null,
    Bool(bool),
    Number(Text),
    Text(Text),
    Array(Seq<JsonValue>),
    Object(Seq<(Text, JsonValue)>),
    Raw(Text),
}

pub open spec fn json_view(value: Json) -> JsonValue
    decreases value,
{
    match value {
        Json::Null => JsonValue::Null,
        Json::Bool(flag) => JsonValue::Bool(flag),
        Json::Number(digits) => JsonValue::Number(digits@),
        Json::Text(content) => JsonValue::Text(content@),
        Json::Array(items) => JsonValue::Array(items_view(items@)),
        Json::Object(fields) => JsonValue::Object(fields_view(fields@)),
        Json::Raw(content) => JsonValue::Raw(content@),
    }
}

pub open spec fn items_view(items: Seq<Json>) -> Seq<JsonValue>
    decreases items,
{
    if items.len() == 0 {
        Seq::empty()
    } else {
        items_view(items.drop_last()).push(json_view(items.last()))
    }
}

pub open spec fn fields_view(fields: Seq<(String, Json)>) -> Seq<(Text, JsonValue)>
    decreases fields,
{
    if fields.len() == 0 {
        Seq::empty()
    } else {
        fields_view(fields.drop_last()).push((fields.last().0@, json_view(fields.last().1)))
    }
}

impl View for Json {
    type V = JsonValue;

    open spec fn view(&self) -> JsonValue {
        json_view(*self)
    }
}

impl DeepView for Json {
    type V = JsonValue;

    open spec fn deep_view(&self) -> JsonValue {
        json_view(*self)
    }
}

pub proof fn lemma_items_view(items: Seq<Json>)
    ensures
        items_view(items).len() == items.len(),
        forall|i: int|
            #![trigger items[i]]
            #![trigger items_view(items)[i]]
            0 <= i < items.len() ==> items_view(items)[i] == json_view(items[i]),
    decreases items.len(),
{
    if items.len() > 0 {
        lemma_items_view(items.drop_last());
        assert forall|i: int| 0 <= i < items.len() implies items_view(items)[i] == json_view(
            #[trigger] items[i],
        ) by {
            if i < items.len() - 1 {
                assert(items.drop_last()[i] == items[i]);
            }
        }
    }
}

pub proof fn lemma_fields_view(fields: Seq<(String, Json)>)
    ensures
        fields_view(fields).len() == fields.len(),
        forall|i: int|
            #![trigger fields[i]]
            #![trigger fields_view(fields)[i]]
            0 <= i < fields.len() ==> fields_view(fields)[i] == (
                fields[i].0@,
                json_view(fields[i].1),
            ),
    decreases fields.len(),
{
    if fields.len() > 0 {
        lemma_fields_view(fields.drop_last());
        assert forall|i: int| 0 <= i < fields.len() implies fields_view(fields)[i] == (
            (#[trigger] fields[i]).0@,
            json_view(fields[i].1),
        ) by {
            if i < fields.len() - 1 {
                assert(fields.drop_last()[i] == fields[i]);
            }
        }
    }
}

/// Text, or null where there is none.
pub open spec fn text_or_null(value: Option<Text>) -> JsonValue {
    match value {
        Some(content) => JsonValue::Text(content),
        None => JsonValue::Null,
    }
}

impl JsonValue {
    /// The object without fields.
    pub open spec fn object() -> JsonValue {
        JsonValue::Object(Seq::empty())
    }

    /// This object with one more field.
    pub open spec fn field(self, name: Text, value: JsonValue) -> JsonValue {
        JsonValue::Object(self->Object_0.push((name, value)))
    }
}

/// Each text as a JSON value.
pub open spec fn text_values(items: Seq<Text>) -> Seq<JsonValue> {
    items.map_values(|content: Text| JsonValue::Text(content))
}

impl Json {
    pub fn text(content: &str) -> (r: Json)
        ensures
            r@ == JsonValue::Text(content@),
    {
        Json::Text(content.to_owned())
    }

    pub fn option(content: &Option<String>) -> (r: Json)
        ensures
            r@ == text_or_null(content.deep_view()),
    {
        match content {
            Some(value) => Json::Text(value.clone()),
            None => Json::Null,
        }
    }

    /// An array of texts.
    pub fn texts(items: &Vec<String>) -> (r: Json)
        ensures
            r@ == JsonValue::Array(text_values(items.deep_view())),
    {
        let mut out: Vec<Json> = Vec::new();
        let mut i: usize = 0;
        while i < items.len()
            invariant
                i <= items@.len(),
                out@.len() == i,
                forall|j: int|
                    0 <= j < i ==> json_view(#[trigger] out@[j]) == JsonValue::Text(items@[j]@),
            decreases items@.len() - i,
        {
            out.push(Json::Text(items[i].clone()));
            i = i + 1;
        }
        proof {
            lemma_items_view(out@);
            assert(items_view(out@) =~= text_values(items.deep_view()));
        }
        Json::Array(out)
    }

    /// The object without fields.
    pub fn empty() -> (r: Json)
        ensures
            r@ == JsonValue::object(),
            r is Object,
    {
        let fields: Vec<(String, Json)> = Vec::new();
        assert(fields_view(fields@) =~= Seq::empty());
        Json::Object(fields)
    }

    /// An object with one more field.
    pub fn with(self, name: &str, value: Json) -> (r: Json)
        requires
            self is Object,
        ensures
            r is Object,
            r@ == self@.field(name@, value@),
    {
        match self {
            Json::Object(fields) => {
                let mut all = fields;
                let ghost before = all@;
                all.push((name.to_owned(), value));
                assert(all@.drop_last() =~= before);
                Json::Object(all)
            },
            other => other,
        }
    }
}

fn copy_items(items: &Vec<Json>) -> (r: Vec<Json>)
    ensures
        items_view(r@) == items_view(items@),
    decreases items,
{
    let mut out: Vec<Json> = Vec::new();
    let mut i: usize = 0;
    assert(items@.take(0) =~= Seq::empty());
    while i < items.len()
        invariant
            i <= items@.len(),
            items_view(out@) == items_view(items@.take(i as int)),
        decreases items@.len() - i,
    {
        let ghost before = out@;
        assert(decreases_to!(items => items@[i as int]));
        out.push(items[i].copy());
        proof {
            assert(out@.drop_last() =~= before);
            assert(items@.take(i + 1).drop_last() =~= items@.take(i as int));
            assert(items@.take(i + 1).last() == items@[i as int]);
        }
        i = i + 1;
    }
    assert(items@.take(i as int) =~= items@);
    out
}

fn copy_fields(fields: &Vec<(String, Json)>) -> (r: Vec<(String, Json)>)
    ensures
        fields_view(r@) == fields_view(fields@),
    decreases fields,
{
    let mut out: Vec<(String, Json)> = Vec::new();
    let mut i: usize = 0;
    assert(fields@.take(0) =~= Seq::empty());
    while i < fields.len()
        invariant
            i <= fields@.len(),
            fields_view(out@) == fields_view(fields@.take(i as int)),
        decreases fields@.len() - i,
    {
        let ghost before = out@;
        assert(decreases_to!(fields => fields@[i as int]));
        out.push((fields[i].0.clone(), fields[i].1.copy()));
        proof {
            assert(out@.drop_last() =~= before);
            assert(fields@.take(i + 1).drop_last() =~= fields@.take(i as int));
            assert(fields@.take(i + 1).last() == fields@[i as int]);
        }
        i = i + 1;
    }
    assert(fields@.take(i as int) =~= fields@);
    out
}

impl Json {
    /// The same value again.
    pub fn copy(&self) -> (r: Json)
        ensures
            r@ == self@,
        decreases self,
    {
        match self {
            Json::Null => Json::Null,
            Json::Bool(flag) => Json::Bool(*flag),
            Json::Number(digits) => Json::Number(digits.clone()),
            Json::Text(content) => Json::Text(content.clone()),
            Json::Array(items) => Json::Array(copy_items(items)),
            Json::Object(fields) => Json::Object(copy_fields(fields)),
            Json::Raw(content) => Json::Raw(content.clone()),
        }
    }
}

} // verus!
