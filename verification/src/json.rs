//! JSON values as plain data, read and written by `serde_json`.

use vstd::prelude::*;

use crate::double::{from_integer, from_natural, integer_bits, natural_bits, Double};
use crate::text::{owned, same};

verus! {

/// A JSON number: a natural number, a negative integer, or a double with its text.
#[derive(Debug, PartialEq)]
pub enum Number {
    Natural(u64),
    Negative(i64),
    Real { value: Double, text: String },
}

/// A JSON value. The fields of an object have different names.
#[derive(Debug, PartialEq)]
pub enum Json {
    Null,
    Bool(bool),
    Number(Number),
    Text(String),
    List(Vec<Json>),
    Object(Vec<(String, Json)>),
}

/// What a JSON value holds.
pub enum JsonTree {
    Null,
    Bool(bool),
    Natural(u64),
    Negative(i64),
    Real(Double, Seq<char>),
    Text(Seq<char>),
    List(Seq<JsonTree>),
    Object(Seq<(Seq<char>, JsonTree)>),
}

impl Json {
    /// What the value holds.
    pub open spec fn tree(self) -> JsonTree
        decreases self,
    {
        match self {
            Json::Null => JsonTree::Null,
            Json::Bool(b) => JsonTree::Bool(b),
            Json::Number(Number::Natural(n)) => JsonTree::Natural(n),
            Json::Number(Number::Negative(n)) => JsonTree::Negative(n),
            Json::Number(Number::Real { value, text }) => JsonTree::Real(value, text@),
            Json::Text(s) => JsonTree::Text(s@),
            Json::List(items) => JsonTree::List(
                Seq::new(
                    items@.len(),
                    |i: int|
                        if 0 <= i < items@.len() {
                            items@[i].tree()
                        } else {
                            JsonTree::Null
                        },
                ),
            ),
            Json::Object(fields) => JsonTree::Object(
                Seq::new(
                    fields@.len(),
                    |i: int|
                        if 0 <= i < fields@.len() {
                            (fields@[i].0@, fields@[i].1.tree())
                        } else {
                            (Seq::empty(), JsonTree::Null)
                        },
                ),
            ),
        }
    }
}

/// The value of the first field with a name.
pub open spec fn lookup(fields: Seq<(Seq<char>, JsonTree)>, key: Seq<char>) -> Option<JsonTree>
    decreases fields.len(),
{
    if fields.len() == 0 {
        None
    } else if fields[0].0 == key {
        Some(fields[0].1)
    } else {
        lookup(fields.drop_first(), key)
    }
}

impl JsonTree {
    /// The value of a field, for an object that has it.
    pub open spec fn get(self, key: Seq<char>) -> Option<JsonTree> {
        match self {
            JsonTree::Object(fields) => lookup(fields, key),
            _ => None,
        }
    }

    /// The value two fields deep.
    pub open spec fn get2(self, outer: Seq<char>, inner: Seq<char>) -> Option<JsonTree> {
        match self.get(outer) {
            Some(value) => value.get(inner),
            None => None,
        }
    }

    /// The text, for a text.
    pub open spec fn as_text(self) -> Option<Seq<char>> {
        match self {
            JsonTree::Text(s) => Some(s),
            _ => None,
        }
    }

    /// The truth value, for a truth value.
    pub open spec fn as_bool(self) -> Option<bool> {
        match self {
            JsonTree::Bool(b) => Some(b),
            _ => None,
        }
    }

    /// The natural number, for a natural number.
    pub open spec fn as_natural(self) -> Option<u64> {
        match self {
            JsonTree::Natural(n) => Some(n),
            _ => None,
        }
    }

    /// The number as a double, for any number.
    pub open spec fn as_double(self) -> Option<Double> {
        match self {
            JsonTree::Natural(n) => Some(Double { bits: natural_bits(n as nat) as u64 }),
            JsonTree::Negative(n) => Some(Double { bits: integer_bits(n as int) as u64 }),
            JsonTree::Real(value, _) => Some(value),
            _ => None,
        }
    }

    /// The elements, for a list.
    pub open spec fn as_list(self) -> Option<Seq<JsonTree>> {
        match self {
            JsonTree::List(items) => Some(items),
            _ => None,
        }
    }
}

/// The text of a field that holds one.
pub open spec fn text_at(tree: JsonTree, key: Seq<char>) -> Option<Seq<char>> {
    match tree.get(key) {
        Some(value) => value.as_text(),
        None => None,
    }
}

/// What the fields of an object hold.
pub open spec fn field_trees(fields: Seq<(String, Json)>) -> Seq<(Seq<char>, JsonTree)> {
    fields.map_values(|f: (String, Json)| (f.0@, f.1.tree()))
}

/// What the elements of a list hold.
pub open spec fn item_trees(items: Seq<Json>) -> Seq<JsonTree> {
    items.map_values(|j: Json| j.tree())
}

/// An object holds what its fields hold.
pub proof fn lemma_object_tree(fields: Vec<(String, Json)>)
    ensures
        Json::Object(fields).tree() == JsonTree::Object(field_trees(fields@)),
{
    assert(Json::Object(fields).tree()->Object_0 =~= field_trees(fields@));
}

/// A list holds what its elements hold.
pub proof fn lemma_list_tree(items: Vec<Json>)
    ensures
        Json::List(items).tree() == JsonTree::List(item_trees(items@)),
{
    assert(Json::List(items).tree()->List_0 =~= item_trees(items@));
}

impl Json {
    /// The value of a field, for an object that has it.
    pub fn get(&self, key: &str) -> (value: Option<&Json>)
        ensures
            match value {
                Some(v) => self.tree().get(key@) == Some(v.tree()),
                None => self.tree().get(key@) is None,
            },
    {
        match self {
            Json::Object(fields) => {
                let ghost all = field_trees(fields@);
                proof {
                    lemma_object_tree(*fields);
                    assert(all.skip(0) =~= all);
                }
                let mut i: usize = 0;
                while i < fields.len()
                    invariant
                        i <= fields@.len(),
                        all == field_trees(fields@),
                        self.tree() == JsonTree::Object(all),
                        lookup(all, key@) == lookup(all.skip(i as int), key@),
                    decreases fields@.len() - i,
                {
                    proof {
                        assert(all.skip(i as int)[0] == all[i as int]);
                        assert(all.skip(i as int).drop_first() =~= all.skip(i + 1));
                    }
                    if same(fields[i].0.as_str(), key) {
                        return Some(&fields[i].1);
                    }
                    i = i + 1;
                }
                assert(all.skip(i as int) =~= Seq::<(Seq<char>, JsonTree)>::empty());
                None
            },
            _ => None,
        }
    }

    /// The value two fields deep.
    pub fn get2(&self, outer: &str, inner: &str) -> (value: Option<&Json>)
        ensures
            match value {
                Some(v) => self.tree().get2(outer@, inner@) == Some(v.tree()),
                None => self.tree().get2(outer@, inner@) is None,
            },
    {
        match self.get(outer) {
            Some(value) => value.get(inner),
            None => None,
        }
    }

    /// The text, for a text.
    pub fn as_text(&self) -> (text: Option<&str>)
        ensures
            match text {
                Some(s) => self.tree().as_text() == Some(s@),
                None => self.tree().as_text() is None,
            },
    {
        match self {
            Json::Text(s) => Some(s.as_str()),
            _ => None,
        }
    }

    /// The truth value, for a truth value.
    pub fn as_bool(&self) -> (b: Option<bool>)
        ensures
            b == self.tree().as_bool(),
    {
        match self {
            Json::Bool(b) => Some(*b),
            _ => None,
        }
    }

    /// The natural number, for a natural number.
    pub fn as_natural(&self) -> (n: Option<u64>)
        ensures
            n == self.tree().as_natural(),
    {
        match self {
            Json::Number(Number::Natural(n)) => Some(*n),
            _ => None,
        }
    }

    /// The number as a double, for any number.
    pub fn as_double(&self) -> (d: Option<Double>)
        ensures
            d == self.tree().as_double(),
    {
        match self {
            Json::Number(Number::Natural(n)) => Some(from_natural(*n)),
            Json::Number(Number::Negative(n)) => Some(from_integer(*n)),
            Json::Number(Number::Real { value, .. }) => Some(*value),
            _ => None,
        }
    }

    /// The elements, for a list.
    pub fn as_list(&self) -> (items: Option<&Vec<Json>>)
        ensures
            match items {
                Some(v) => self.tree().as_list() == Some(item_trees(v@)),
                None => self.tree().as_list() is None,
            },
    {
        match self {
            Json::List(items) => {
                proof {
                    lemma_list_tree(*items);
                }
                Some(items)
            },
            _ => None,
        }
    }

    /// The text of a field that holds one.
    pub fn text_at(&self, key: &str) -> (text: Option<&str>)
        ensures
            match text {
                Some(s) => text_at(self.tree(), key@) == Some(s@),
                None => text_at(self.tree(), key@) is None,
            },
    {
        match self.get(key) {
            Some(value) => value.as_text(),
            None => None,
        }
    }

    /// A text.
    pub fn text(s: &str) -> (json: Json)
        ensures
            json.tree() == JsonTree::Text(s@),
    {
        Json::Text(owned(s))
    }

    /// A natural number.
    pub fn natural(n: u64) -> (json: Json)
        ensures
            json.tree() == JsonTree::Natural(n),
    {
        Json::Number(Number::Natural(n))
    }

    /// An integer.
    pub fn integer(n: i64) -> (json: Json)
        ensures
            json.tree() == integer_tree(n),
    {
        if n < 0 {
            Json::Number(Number::Negative(n))
        } else {
            Json::Number(Number::Natural(n as u64))
        }
    }

    /// A list.
    pub fn list(items: Vec<Json>) -> (json: Json)
        ensures
            json.tree() == JsonTree::List(item_trees(items@)),
    {
        proof {
            lemma_list_tree(items);
        }
        Json::List(items)
    }
}

/// What an integer holds: a natural number, or a negative one.
pub open spec fn integer_tree(n: i64) -> JsonTree {
    if n < 0 {
        JsonTree::Negative(n)
    } else {
        JsonTree::Natural(n as u64)
    }
}

impl Clone for Json {
    fn clone(&self) -> (copy: Self)
        ensures
            copy.tree() == self.tree(),
        decreases self,
    {
        match self {
            Json::Null => Json::Null,
            Json::Bool(b) => Json::Bool(*b),
            Json::Number(Number::Natural(n)) => Json::Number(Number::Natural(*n)),
            Json::Number(Number::Negative(n)) => Json::Number(Number::Negative(*n)),
            Json::Number(Number::Real { value, text }) => Json::Number(
                Number::Real { value: *value, text: text.clone() },
            ),
            Json::Text(s) => Json::Text(s.clone()),
            Json::List(items) => {
                let mut copies: Vec<Json> = Vec::new();
                let mut i: usize = 0;
                while i < items.len()
                    invariant
                        i <= items@.len(),
                        *self == Json::List(*items),
                        copies@.len() == i,
                        forall|j: int|
                            0 <= j < i ==> (#[trigger] copies@[j]).tree() == items@[j].tree(),
                    decreases items@.len() - i,
                {
                    assert(decreases_to!(*self => (*self)->List_0@[i as int]));
                    let copy = items[i].clone();
                    copies.push(copy);
                    i = i + 1;
                }
                proof {
                    lemma_list_tree(copies);
                    lemma_list_tree(*items);
                    assert(item_trees(copies@) =~= item_trees(items@));
                }
                Json::List(copies)
            },
            Json::Object(fields) => {
                let mut copies: Vec<(String, Json)> = Vec::new();
                let mut i: usize = 0;
                while i < fields.len()
                    invariant
                        i <= fields@.len(),
                        *self == Json::Object(*fields),
                        copies@.len() == i,
                        forall|j: int|
                            0 <= j < i ==> (#[trigger] copies@[j]).0@ == fields@[j].0@
                                && copies@[j].1.tree() == fields@[j].1.tree(),
                    decreases fields@.len() - i,
                {
                    assert(decreases_to!(*self => (*self)->Object_0@[i as int].1));
                    let copy = fields[i].1.clone();
                    copies.push((fields[i].0.clone(), copy));
                    i = i + 1;
                }
                proof {
                    lemma_object_tree(copies);
                    lemma_object_tree(*fields);
                    assert(field_trees(copies@) =~= field_trees(fields@));
                }
                Json::Object(copies)
            },
        }
    }
}

/// An object without fields.
pub open spec fn no_fields() -> Seq<(Seq<char>, JsonTree)> {
    Seq::empty()
}

/// An object under construction.
pub struct Fields {
    fields: Vec<(String, Json)>,
}

impl Fields {
    /// What the fields hold.
    pub closed spec fn trees(self) -> Seq<(Seq<char>, JsonTree)> {
        field_trees(self.fields@)
    }

    /// No fields.
    pub fn new() -> (fields: Self)
        ensures
            fields.trees() == no_fields(),
    {
        let fields = Fields { fields: Vec::new() };
        assert(fields.trees() =~= Seq::<(Seq<char>, JsonTree)>::empty());
        fields
    }

    /// The fields with one more at the end.
    pub fn with(self, key: &str, value: Json) -> (fields: Self)
        ensures
            fields.trees() == self.trees().push((key@, value.tree())),
    {
        let mut fields = self.fields;
        fields.push((owned(key), value));
        let result = Fields { fields };
        assert(result.trees() =~= self.trees().push((key@, value.tree())));
        result
    }

    /// The object.
    pub fn build(self) -> (json: Json)
        ensures
            json.tree() == JsonTree::Object(self.trees()),
    {
        proof {
            lemma_object_tree(self.fields);
        }
        Json::Object(self.fields)
    }
}

/// A JSON value of `serde_json`.
#[verifier::external_type_specification]
#[verifier::external_body]
pub struct ExValue(serde_json::Value);

/// What `serde_json` reads in a text; `None` where the text is no JSON.
pub uninterp spec fn parsed(text: Seq<char>) -> Option<JsonTree>;

/// The text in which `serde_json` writes a value.
pub uninterp spec fn rendered(tree: JsonTree) -> Seq<char>;

/// Converts the number in a `serde_json::Value`, by the way in which `serde_json` holds it. Nothing
/// is promised of the result here; [`parse`] names it.
#[verifier::external_body]
fn from_number(n: &serde_json::Value) -> (number: Number) {
    match (n.as_u64(), n.as_i64(), n.as_f64()) {
        (Some(u), _, _) => Number::Natural(u),
        (_, Some(i), _) => Number::Negative(i),
        (_, _, d) => Number::Real {
            value: Double { bits: d.unwrap_or_default().to_bits() },
            text: n.to_string(),
        },
    }
}

/// Converts a `serde_json::Value`, variant by variant. Nothing is promised of the result here;
/// [`parse`] names it.
#[verifier::external_body]
fn from_value(value: &serde_json::Value) -> (json: Json) {
    match value {
        serde_json::Value::Null => Json::Null,
        serde_json::Value::Bool(b) => Json::Bool(*b),
        serde_json::Value::Number(_) => Json::Number(from_number(value)),
        serde_json::Value::String(s) => Json::Text(s.clone()),
        serde_json::Value::Array(a) => Json::List(a.iter().map(from_value).collect()),
        serde_json::Value::Object(m) => Json::Object(
            m.iter().map(|(k, v)| (k.clone(), from_value(v))).collect(),
        ),
    }
}

/// Converts to a `serde_json::Value`, variant by variant. Nothing is promised of the result here;
/// [`render`] names what is written of it.
#[verifier::external_body]
fn to_value(json: &Json) -> (value: serde_json::Value) {
    match json {
        Json::Null => serde_json::Value::Null,
        Json::Bool(b) => serde_json::Value::Bool(*b),
        Json::Number(Number::Natural(n)) => serde_json::Value::from(*n),
        Json::Number(Number::Negative(n)) => serde_json::Value::from(*n),
        Json::Number(Number::Real { text, .. }) => serde_json::from_str(text).unwrap_or_default(),
        Json::Text(s) => serde_json::Value::String(s.clone()),
        Json::List(items) => items.iter().map(to_value).collect(),
        Json::Object(fields) => fields.iter().map(|(k, v)| (k.clone(), to_value(v))).collect(),
    }
}

/// `serde_json::from_str`: reads a text as JSON, named [`parsed`]; `None` for an error.
#[verifier::external_body]
pub(crate) fn parse(text: &str) -> (json: Option<Json>)
    ensures
        match json {
            Some(j) => parsed(text@) == Some(j.tree()),
            None => parsed(text@) is None,
        },
{
    serde_json::from_str::<serde_json::Value>(text).ok().as_ref().map(from_value)
}

/// `serde_json::Value::to_string`: writes a value as compact JSON, named [`rendered`].
#[verifier::external_body]
pub(crate) fn render(json: &Json) -> (text: String)
    ensures
        text@ == rendered(json.tree()),
{
    to_value(json).to_string()
}

/// A field is found by its name: the first field of that name is the one, and there is none where
/// no field has the name.
pub proof fn law_a_field_is_found_by_name(
    fields: Seq<(Seq<char>, JsonTree)>,
    key: Seq<char>,
    i: int,
)
    ensures
        0 <= i < fields.len() && fields[i].0 == key && (forall|j: int|
            0 <= j < i ==> (#[trigger] fields[j]).0 != key) ==> JsonTree::Object(fields).get(key)
            == Some(fields[i].1),
        (forall|j: int| 0 <= j < fields.len() ==> (#[trigger] fields[j]).0 != key)
            ==> JsonTree::Object(fields).get(key) is None,
    decreases fields.len(),
{
    if fields.len() > 0 && fields[0].0 != key {
        let rest = fields.drop_first();
        law_a_field_is_found_by_name(rest, key, i - 1);
        if 0 <= i < fields.len() && fields[i].0 == key && (forall|j: int|
            0 <= j < i ==> (#[trigger] fields[j]).0 != key) {
            assert(rest[i - 1] == fields[i]);
            assert forall|j: int| 0 <= j < i - 1 implies (#[trigger] rest[j]).0 != key by {
                assert(rest[j] == fields[j + 1]);
            }
        }
        if forall|j: int| 0 <= j < fields.len() ==> (#[trigger] fields[j]).0 != key {
            assert forall|j: int| 0 <= j < rest.len() implies (#[trigger] rest[j]).0 != key by {
                assert(rest[j] == fields[j + 1]);
            }
        }
    }
}

/// An integer is written as it is, below zero or not.
pub proof fn law_an_integer_is_written_as_it_is(n: i64)
    ensures
        integer_tree(n) matches JsonTree::Natural(m) ==> m == n,
        integer_tree(n) matches JsonTree::Negative(m) ==> m == n && m < 0,
        integer_tree(n) is Natural || integer_tree(n) is Negative,
{
}

/// A value is read as what it is, and as nothing else.
pub proof fn law_values_are_read_as_they_are(
    s: Seq<char>,
    b: bool,
    n: u64,
    items: Seq<JsonTree>,
    fields: Seq<(Seq<char>, JsonTree)>,
    value: Double,
)
    ensures
        JsonTree::Text(s).as_text() == Some(s) && JsonTree::Text(s).as_bool() is None
            && JsonTree::Text(s).as_natural() is None && JsonTree::Text(s).as_double() is None
            && JsonTree::Text(s).as_list() is None,
        JsonTree::Bool(b).as_bool() == Some(b) && JsonTree::Bool(b).as_text() is None
            && JsonTree::Bool(b).as_double() is None,
        JsonTree::Natural(n).as_natural() == Some(n) && JsonTree::Natural(n).as_text() is None,
        JsonTree::Real(value, s).as_double() == Some(value) && JsonTree::Real(value, s).as_natural()
            is None,
        JsonTree::List(items).as_list() == Some(items) && JsonTree::List(items).as_text() is None,
        JsonTree::Object(fields).as_list() is None && JsonTree::Object(fields).as_text() is None,
        JsonTree::Null.as_text() is None && JsonTree::Null.as_bool() is None
            && JsonTree::Null.as_double() is None && JsonTree::Null.as_list() is None,
{
}

/// Whole numbers are read by their value: the smaller number as the smaller double.
pub proof fn law_numbers_are_read_by_value(n: u64, m: u64, k: i64)
    requires
        n < m < 0x20_0000_0000_0000,
        -0x20_0000_0000_0000 < k < 0,
    ensures
        JsonTree::Natural(n).as_double()->0.spec_less(JsonTree::Natural(m).as_double()->0),
        JsonTree::Negative(k).as_double()->0.spec_less(JsonTree::Natural(n).as_double()->0),
{
    vstd::arithmetic::power2::lemma2_to64();
    vstd::arithmetic::power2::lemma2_to64_rest();
    crate::double::law_integers_keep_their_order(n as int, m as int);
    crate::double::law_integers_keep_their_order(k as int, n as int);
}

} // verus!
