//! JSON documents.

use vstd::prelude::*;

verus! {

/// A JSON document, or any part of one.
#[derive(Debug, PartialEq, Eq)]
pub enum Value {
    Null,
    Bool(bool),
    /// A number, kept as the text of its literal.
    Number(String),
    String(String),
    /// The elements, in order.
    Array(Vec<Value>),
    /// The fields, in order, each a name and its value. Looking a name up
    /// finds the first field that bears it.
    Object(Vec<(String, Value)>),
}

/// What a [`Value`] stands for: the same tree over sequences.
pub enum Json {
    Null,
    Bool(bool),
    Number(Seq<char>),
    String(Seq<char>),
    Array(Seq<Json>),
    Object(Seq<(Seq<char>, Json)>),
}

/// Whether no two of the fields bear the same name.
pub open spec fn distinct_names(fields: Seq<(Seq<char>, Json)>) -> bool {
    forall|i: int, j: int| 0 <= i < j < fields.len() ==> fields[i].0 != fields[j].0
}

impl Json {
    /// Whether no object in the value, at any depth, has two fields of the
    /// same name: each object then is a mapping from names to values.
    pub open spec fn has_distinct_names(self) -> bool
        decreases self,
    {
        match self {
            Json::Array(items) => forall|i: int|
                0 <= i < items.len() ==> (#[trigger] items[i]).has_distinct_names(),
            Json::Object(fields) => distinct_names(fields) && forall|i: int|
                0 <= i < fields.len() ==> (#[trigger] fields[i]).1.has_distinct_names(),
            _ => true,
        }
    }
}

impl View for Value {
    type V = Json;

    // The closures test their index so that every call of `view` in them is
    // on a part of `self`; no index outside the range is ever read.
    open spec fn view(&self) -> Json
        decreases self,
    {
        match self {
            Value::Null => Json::Null,
            Value::Bool(b) => Json::Bool(*b),
            Value::Number(text) => Json::Number(text@),
            Value::String(text) => Json::String(text@),
            Value::Array(items) => Json::Array(
                Seq::new(
                    items@.len(),
                    |i: int|
                        if 0 <= i < items@.len() {
                            items@[i].view()
                        } else {
                            Json::Null
                        },
                ),
            ),
            Value::Object(fields) => Json::Object(
                Seq::new(
                    fields@.len(),
                    |i: int|
                        if 0 <= i < fields@.len() {
                            (fields@[i].0@, fields@[i].1.view())
                        } else {
                            (Seq::empty(), Json::Null)
                        },
                ),
            ),
        }
    }
}

/// Whether `seq` holds what the elements of `items` stand for, one by one.
pub open spec fn views_items(seq: Seq<Json>, items: Seq<Value>) -> bool {
    &&& seq.len() == items.len()
    &&& forall|i: int| 0 <= i < items.len() ==> seq[i] == items[i]@
}

/// Whether `seq` holds what the fields of `fields` stand for, one by one.
pub open spec fn views_fields(seq: Seq<(Seq<char>, Json)>, fields: Seq<(String, Value)>) -> bool {
    &&& seq.len() == fields.len()
    &&& forall|i: int| 0 <= i < fields.len() ==> seq[i] == (fields[i].0@, fields[i].1@)
}

impl Value {
    /// An array stands for the array of what its elements stand for, and an
    /// object for the fields of what its fields stand for, in the same order.
    pub proof fn lemma_view_parts(self)
        ensures
            self matches Value::Array(items) ==> self@ is Array && views_items(
                self@->Array_0,
                items@,
            ),
            self matches Value::Object(fields) ==> self@ is Object && views_fields(
                self@->Object_0,
                fields@,
            ),
    {
        reveal_with_fuel(<Value as View>::view, 2);
    }
}

impl Clone for Value {
    /// A deep copy: a value of its own that stands for the same document.
    fn clone(&self) -> (copy: Value)
        ensures
            copy@ == self@,
        decreases self,
    {
        match self {
            Value::Null => Value::Null,
            Value::Bool(b) => Value::Bool(*b),
            Value::Number(text) => Value::Number(text.clone()),
            Value::String(text) => Value::String(text.clone()),
            Value::Array(items) => {
                let mut copies: Vec<Value> = Vec::new();
                let mut i: usize = 0;
                while i < items.len()
                    invariant
                        *self == Value::Array(*items),
                        i <= items@.len(),
                        copies@.len() == i,
                        forall|j: int| 0 <= j < i ==> copies@[j]@ == items@[j]@,
                    decreases items@.len() - i,
                {
                    proof {
                        assert(decreases_to!(self => self->Array_0));
                        assert(decreases_to!(items@ => items@[i as int]));
                    }
                    copies.push(items[i].clone());
                    i = i + 1;
                }
                let copy = Value::Array(copies);
                proof {
                    self.lemma_view_parts();
                    copy.lemma_view_parts();
                    assert(copy@->Array_0 =~= self@->Array_0);
                }
                copy
            },
            Value::Object(fields) => {
                let mut copies: Vec<(String, Value)> = Vec::new();
                let mut i: usize = 0;
                while i < fields.len()
                    invariant
                        *self == Value::Object(*fields),
                        i <= fields@.len(),
                        copies@.len() == i,
                        forall|j: int|
                            0 <= j < i ==> copies@[j].0@ == fields@[j].0@ && copies@[j].1@
                                == fields@[j].1@,
                    decreases fields@.len() - i,
                {
                    proof {
                        assert(decreases_to!(self => self->Object_0));
                        assert(decreases_to!(fields@ => fields@[i as int]));
                    }
                    copies.push((fields[i].0.clone(), fields[i].1.clone()));
                    i = i + 1;
                }
                let copy = Value::Object(copies);
                proof {
                    self.lemma_view_parts();
                    copy.lemma_view_parts();
                    assert(copy@->Object_0 =~= self@->Object_0);
                }
                copy
            },
        }
    }
}

} // verus!
