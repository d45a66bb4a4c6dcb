//! JSON values as the library reads them.
use crate::text::same_text;
use vstd::prelude::*;
use vstd::string::*;

verus! {

/// A JSON value. The library reads no numbers, so a number is not kept.
#[derive(Debug)]
pub enum Json {
    Null,
    Bool(bool),
    Number,
    String(String),
    Array(Vec<Json>),
    Object(Vec<(String, Json)>),
}

/// The model of a JSON value. The properties of an object are in the order in which they are
/// walked.
pub enum JsonView {
    Null,
    Bool(bool),
    Number,
    String(Seq<char>),
    Array(Seq<JsonView>),
    Object(Seq<(Seq<char>, JsonView)>),
}

impl View for Json {
    type V = JsonView;

    open spec fn view(&self) -> JsonView {
        json_model(*self)
    }
}

/// The model of a JSON value.
pub open spec fn json_model(json: Json) -> JsonView
    decreases json, 0nat,
{
    match json {
        Json::Null => JsonView::Null,
        Json::Bool(value) => JsonView::Bool(value),
        Json::Number => JsonView::Number,
        Json::String(value) => JsonView::String(value@),
        Json::Array(items) => JsonView::Array(item_models(items@)),
        Json::Object(fields) => JsonView::Object(field_models(fields@)),
    }
}

/// The models of the elements of an array.
pub open spec fn item_models(items: Seq<Json>) -> Seq<JsonView>
    decreases items, 1nat,
{
    Seq::new(
        items.len(),
        |i: int|
            if 0 <= i < items.len() {
                json_model(items[i])
            } else {
                arbitrary()
            },
    )
}

/// The models of the properties of an object.
pub open spec fn field_models(fields: Seq<(String, Json)>) -> Seq<(Seq<char>, JsonView)>
    decreases fields, 1nat,
{
    Seq::new(
        fields.len(),
        |i: int|
            if 0 <= i < fields.len() {
                (fields[i].0@, json_model(fields[i].1))
            } else {
                arbitrary()
            },
    )
}

impl JsonView {
    /// The value of the first property with the given name, if this is an object that has one.
    pub open spec fn member(self, key: Seq<char>) -> Option<JsonView> {
        match self {
            JsonView::Object(fields) => member_of(fields, key),
            _ => None,
        }
    }

    /// The text, if this is a string.
    pub open spec fn string(self) -> Option<Seq<char>> {
        match self {
            JsonView::String(value) => Some(value),
            _ => None,
        }
    }

    /// The elements, if this is an array.
    pub open spec fn array(self) -> Option<Seq<JsonView>> {
        match self {
            JsonView::Array(items) => Some(items),
            _ => None,
        }
    }

    /// The text of the first property with the given name, if there is one and it is a string.
    pub open spec fn string_member(self, key: Seq<char>) -> Option<Seq<char>> {
        match self.member(key) {
            Some(value) => value.string(),
            None => None,
        }
    }

    /// The truth value of the first property with the given name, if there is one and it is one.
    pub open spec fn bool_member(self, key: Seq<char>) -> Option<bool> {
        match self.member(key) {
            Some(JsonView::Bool(value)) => Some(value),
            _ => None,
        }
    }
}

/// The value of the first of the properties with the given name.
pub open spec fn member_of(fields: Seq<(Seq<char>, JsonView)>, key: Seq<char>) -> Option<JsonView>
    decreases fields.len(),
{
    if fields.len() == 0 {
        None
    } else if fields[0].0 == key {
        Some(fields[0].1)
    } else {
        member_of(fields.drop_first(), key)
    }
}

/// A value of `serde_json`.
#[verifier::external_type_specification]
#[verifier::external_body]
pub struct ExValue(serde_json::Value);

/// What a value of `serde_json` holds: the tree of values below it.
pub uninterp spec fn json_contents(value: serde_json::Value) -> JsonView;

/// What `serde_json::from_str` reads from a text; `None` where it gives an error.
pub uninterp spec fn json_of_text(source: Seq<char>) -> Option<JsonView>;

/// One level of a value of `serde_json`.
enum Level<'a> {
    Null,
    Bool(bool),
    Number,
    String(&'a str),
    Array(&'a Vec<serde_json::Value>),
    Object(Vec<(&'a String, &'a serde_json::Value)>),
}

/// `serde_json::from_str` reads a text as one JSON value. What it gives depends on the text alone.
#[verifier::external_body]
fn read_value(source: &str) -> (value: Option<serde_json::Value>)
    ensures
        match value {
            Some(value) => json_of_text(source@) == Some(json_contents(value)),
            None => json_of_text(source@) is None,
        },
{
    serde_json::from_str(source).ok()
}

/// The variants of `serde_json::Value`, with what they hold. `serde_json::Map::iter` walks all
/// properties of an object.
#[verifier::external_body]
fn level_of(value: &serde_json::Value) -> (level: Level<'_>)
    ensures
        json_contents(*value) == (match level {
            Level::Null => JsonView::Null,
            Level::Bool(value) => JsonView::Bool(value),
            Level::Number => JsonView::Number,
            Level::String(value) => JsonView::String(value@),
            Level::Array(items) => JsonView::Array(
                items@.map_values(|item: serde_json::Value| json_contents(item)),
            ),
            Level::Object(fields) => JsonView::Object(
                fields@.map_values(
                    |field: (&String, &serde_json::Value)| (field.0@, json_contents(*field.1)),
                ),
            ),
        }),
{
    match value {
        serde_json::Value::Null => Level::Null,
        serde_json::Value::Bool(value) => Level::Bool(*value),
        serde_json::Value::Number(_) => Level::Number,
        serde_json::Value::String(value) => Level::String(value.as_str()),
        serde_json::Value::Array(items) => Level::Array(items),
        serde_json::Value::Object(fields) => Level::Object(fields.iter().collect()),
    }
}

impl Json {
    /// The value that a value of `serde_json` holds.
    pub fn from_value(value: &serde_json::Value) -> (json: Json)
        ensures
            json@ == json_contents(*value),
        decreases json_contents(*value),
    {
        match level_of(value) {
            Level::Null => Json::Null,
            Level::Bool(value) => Json::Bool(value),
            Level::Number => Json::Number,
            Level::String(value) => Json::String(value.to_owned()),
            Level::Array(items) => {
                let ghost whole = items@.map_values(
                    |item: serde_json::Value| json_contents(item),
                );
                let mut list: Vec<Json> = Vec::new();
                let mut i: usize = 0;
                while i < items.len()
                    invariant
                        i <= items@.len(),
                        json_contents(*value) == JsonView::Array(whole),
                        whole == items@.map_values(|item: serde_json::Value| json_contents(item)),
                        item_models(list@) == whole.take(i as int),
                    decreases items@.len() - i,
                {
                    assert(whole[i as int] == json_contents(items@[i as int]));
                    assert(decreases_to!(json_contents(*value) => json_contents(*value)->Array_0));
                    assert(decreases_to!(whole => whole[i as int]));
                    let ghost before = list@;
                    list.push(Json::from_value(&items[i]));
                    assert(item_models(list@) =~= item_models(before).push(list@.last()@));
                    assert(whole.take(i + 1) =~= whole.take(i as int).push(whole[i as int]));
                    i += 1;
                }
                assert(whole.take(whole.len() as int) =~= whole);
                Json::Array(list)
            },
            Level::Object(fields) => {
                let ghost whole = fields@.map_values(
                    |field: (&String, &serde_json::Value)| (field.0@, json_contents(*field.1)),
                );
                let mut list: Vec<(String, Json)> = Vec::new();
                let mut i: usize = 0;
                while i < fields.len()
                    invariant
                        i <= fields@.len(),
                        json_contents(*value) == JsonView::Object(whole),
                        whole == fields@.map_values(
                            |field: (&String, &serde_json::Value)|
                                (field.0@, json_contents(*field.1)),
                        ),
                        field_models(list@) == whole.take(i as int),
                    decreases fields@.len() - i,
                {
                    assert(whole[i as int] == (
                        fields@[i as int].0@,
                        json_contents(*fields@[i as int].1),
                    ));
                    assert(decreases_to!(json_contents(*value) => json_contents(*value)->Object_0));
                    assert(decreases_to!(whole => whole[i as int]));
                    assert(decreases_to!(whole[i as int] => whole[i as int].1));
                    let ghost before = list@;
                    list.push((fields[i].0.clone(), Json::from_value(fields[i].1)));
                    assert(field_models(list@) =~= field_models(before).push(
                        (list@.last().0@, list@.last().1@),
                    ));
                    assert(whole.take(i + 1) =~= whole.take(i as int).push(whole[i as int]));
                    i += 1;
                }
                assert(whole.take(whole.len() as int) =~= whole);
                Json::Object(list)
            },
        }
    }

    /// Reads a text as one JSON value.
    pub fn parse(source: &str) -> (json: Option<Json>)
        ensures
            match json {
                Some(json) => json_of_text(source@) == Some(json@),
                None => json_of_text(source@) is None,
            },
    {
        match read_value(source) {
            Some(value) => Some(Json::from_value(&value)),
            None => None,
        }
    }

    /// The value of the first property with the given name, if this is an object that has one.
    pub fn get(&self, key: &str) -> (value: Option<&Json>)
        ensures
            match value {
                Some(value) => self@.member(key@) == Some(value@),
                None => self@.member(key@) is None,
            },
    {
        match self {
            Json::Object(fields) => {
                let ghost models = field_models(fields@);
                let mut i: usize = 0;
                assert(models.skip(0) =~= models);
                while i < fields.len()
                    invariant
                        i <= fields@.len(),
                        models == field_models(fields@),
                        self@ == JsonView::Object(models),
                        member_of(models, key@) == member_of(models.skip(i as int), key@),
                    decreases fields@.len() - i,
                {
                    assert(models.skip(i as int)[0] == models[i as int]);
                    assert(models.skip(i as int).drop_first() =~= models.skip(i + 1));
                    if same_text(fields[i].0.as_str(), key) {
                        return Some(&fields[i].1);
                    }
                    i += 1;
                }
                None
            },
            _ => None,
        }
    }

    /// The text, if this is a string.
    pub fn as_str(&self) -> (value: Option<&str>)
        ensures
            match value {
                Some(value) => self@.string() == Some(value@),
                None => self@.string() is None,
            },
    {
        match self {
            Json::String(value) => Some(value.as_str()),
            _ => None,
        }
    }

    /// The elements, if this is an array.
    pub fn as_array(&self) -> (items: Option<&Vec<Json>>)
        ensures
            match items {
                Some(items) => self@.array() == Some(item_models(items@)),
                None => self@.array() is None,
            },
    {
        match self {
            Json::Array(items) => Some(items),
            _ => None,
        }
    }

    /// The text of the first property with the given name, if there is one and it is a string.
    pub fn get_str(&self, key: &str) -> (value: Option<&str>)
        ensures
            match value {
                Some(value) => self@.string_member(key@) == Some(value@),
                None => self@.string_member(key@) is None,
            },
    {
        match self.get(key) {
            Some(value) => value.as_str(),
            None => None,
        }
    }

    /// The truth value of the first property with the given name, if there is one and it is one.
    pub fn get_bool(&self, key: &str) -> (value: Option<bool>)
        ensures
            value == self@.bool_member(key@),
    {
        match self.get(key) {
            Some(Json::Bool(value)) => Some(*value),
            _ => None,
        }
    }
}

/// The value of a name is that of the first property with that name, whatever other properties there
/// are; there is none where no property has that name, and none in what is not an object.
pub proof fn law_member_is_first_of_its_name(fields: Seq<(Seq<char>, JsonView)>, key: Seq<char>)
    ensures
        match JsonView::Object(fields).member(key) {
            Some(value) => exists|i: int|
                0 <= i < fields.len() && (#[trigger] fields[i]).0 == key && fields[i].1 == value && (
                forall|j: int| 0 <= j < i ==> (#[trigger] fields[j]).0 != key),
            None => forall|i: int| 0 <= i < fields.len() ==> (#[trigger] fields[i]).0 != key,
        },
        forall|other: JsonView| !(other is Object) ==> (#[trigger] other.member(key)) is None,
    decreases fields.len(),
{
    if fields.len() > 0 && fields[0].0 != key {
        let rest = fields.drop_first();
        law_member_is_first_of_its_name(rest, key);
        assert forall|i: int| 0 < i < fields.len() implies (#[trigger] fields[i]) == rest[i - 1] by {}
        match JsonView::Object(rest).member(key) {
            Some(value) => {
                let i = choose|i: int|
                    0 <= i < rest.len() && (#[trigger] rest[i]).0 == key && rest[i].1 == value && (
                    forall|j: int| 0 <= j < i ==> (#[trigger] rest[j]).0 != key);
                assert(fields[i + 1] == rest[i]);
            },
            None => {},
        }
    }
}

/// A property counts as a text only where its value is a string, and as a truth value only where its
/// value is one.
pub proof fn law_members_are_taken_for_what_they_are(json: JsonView, key: Seq<char>)
    ensures
        json.string_member(key) == (match json.member(key) {
            Some(JsonView::String(value)) => Some(value),
            _ => None,
        }),
        json.bool_member(key) == (match json.member(key) {
            Some(JsonView::Bool(value)) => Some(value),
            _ => None,
        }),
        json.array() == (match json {
            JsonView::Array(items) => Some(items),
            _ => None,
        }),
{
}

} // verus!
