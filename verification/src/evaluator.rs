//! Following a path through a document.

use crate::error::{Failure, FilterError};
use crate::index::{as_index, parse_index};
use crate::token::{steps, Step, Token};
use crate::value::{distinct_names, views_fields, views_items, Json, Value};
use vstd::prelude::*;

verus! {

/// The value of the first field named `name`, if there is one.
pub open spec fn lookup(fields: Seq<(Seq<char>, Json)>, name: Seq<char>) -> Option<Json>
    decreases fields.len(),
{
    if fields.len() == 0 {
        None
    } else if fields[0].0 == name {
        Some(fields[0].1)
    } else {
        lookup(fields.drop_first(), name)
    }
}

/// Whether `results[i]` is a failure and nothing before it is.
pub open spec fn is_first_failure(results: Seq<Result<Json, Failure>>, i: int) -> bool {
    &&& 0 <= i < results.len()
    &&& results[i] is Err
    &&& forall|j: int| 0 <= j < i ==> results[j] is Ok
}

/// All the values of `results`, in order, where none of them is a failure;
/// the first failure otherwise.
pub open spec fn gather(results: Seq<Result<Json, Failure>>) -> Result<Seq<Json>, Failure> {
    if forall|i: int| 0 <= i < results.len() ==> results[i] is Ok {
        Ok(Seq::new(results.len(), |i: int| results[i]->Ok_0))
    } else {
        Err(results[choose|i: int| is_first_failure(results, i)]->Err_0)
    }
}

/// What following `path` from `value` yields.
///
/// The empty path yields the value itself. A key step enters the field of
/// that name in an object, or the element at that index in an array. A
/// wildcard step follows the rest of the path from every element of an
/// array and yields the array of what that gave.
pub open spec fn evaluate(value: Json, path: Seq<Step>) -> Result<Json, Failure>
    decreases path.len(), 0nat,
{
    if path.len() == 0 {
        Ok(value)
    } else {
        let rest = path.drop_first();
        match path[0] {
            Step::Any => match value {
                Json::Array(items) => match gather(evaluate_each(items, rest)) {
                    Ok(found) => Ok(Json::Array(found)),
                    Err(failure) => Err(failure),
                },
                _ => Err(Failure::WildcardOnNonArray),
            },
            Step::Key(name) => match value {
                Json::Object(fields) => match lookup(fields, name) {
                    Some(child) => evaluate(child, rest),
                    None => Err(Failure::KeyNotFound(name)),
                },
                Json::Array(items) => match as_index(name) {
                    Some(index) => if index < items.len() {
                        evaluate(items[index as int], rest)
                    } else {
                        Err(Failure::IndexOutOfBounds(index as nat, items.len()))
                    },
                    None => Err(Failure::InvalidIndex(name)),
                },
                _ => Err(Failure::CannotDescendIntoScalar(name)),
            },
        }
    }
}

/// What following `path` yields from each of `items`, in order.
pub open spec fn evaluate_each(items: Seq<Json>, path: Seq<Step>) -> Seq<Result<Json, Failure>>
    decreases path.len(), 1nat,
{
    Seq::new(items.len(), |i: int| evaluate(items[i], path))
}

/// What the result of a query stands for.
pub open spec fn outcome(result: Result<Value, FilterError>) -> Result<Json, Failure> {
    match result {
        Ok(found) => Ok(found@),
        Err(error) => Err(error@),
    }
}

/// Follows `tokens` through `data` and returns a copy of the value they
/// lead to, or the reason why they lead nowhere.
pub fn filter(data: &Value, tokens: Vec<Token>) -> (result: Result<Value, FilterError>)
    ensures
        outcome(result) == evaluate(data@, steps(tokens@)),
        tokens@.len() == 0 ==> outcome(result) == Ok::<Json, Failure>(data@),
{
    assert(steps(tokens@).skip(0) =~= steps(tokens@));
    filter_from(data, &tokens, 0)
}

/// Follows the tokens from position `from` on.
fn filter_from(data: &Value, tokens: &Vec<Token>, from: usize) -> (result: Result<
    Value,
    FilterError,
>)
    requires
        from <= tokens@.len(),
    ensures
        outcome(result) == evaluate(data@, steps(tokens@).skip(from as int)),
    decreases tokens@.len() - from,
{
    if from == tokens.len() {
        return Ok(data.clone());
    }
    let next = from + 1;
    let ghost path = steps(tokens@).skip(from as int);
    let ghost rest = steps(tokens@).skip(next as int);
    proof {
        assert(path =~= seq![path[0]] + rest);
        assert(path.drop_first() =~= rest);
        assert(path[0] == tokens@[from as int]@);
        data.lemma_view_parts();
    }
    match tokens[from] {
        Token::Any => match data {
            Value::Array(items) => {
                let mut found: Vec<Value> = Vec::new();
                let mut i: usize = 0;
                while i < items.len()
                    invariant
                        next == from + 1,
                        next <= tokens@.len(),
                        path == steps(tokens@).skip(from as int),
                        rest == steps(tokens@).skip(next as int),
                        path == seq![Step::Any] + rest,
                        data@ is Array,
                        views_items(data@->Array_0, items@),
                        i <= items@.len(),
                        found@.len() == i,
                        forall|j: int|
                            0 <= j < i ==> evaluate(items@[j]@, rest) == Ok::<Json, Failure>(
                                found@[j]@,
                            ),
                    decreases items@.len() - i,
                {
                    match filter_from(&items[i], tokens, next) {
                        Ok(value) => {
                            found.push(value);
                        },
                        Err(error) => {
                            proof {
                                lemma_wildcard_fails_fast(data@->Array_0, rest, i as int);
                            }
                            return Err(error);
                        },
                    }
                    i = i + 1;
                }
                let all = Value::Array(found);
                proof {
                    all.lemma_view_parts();
                    lemma_wildcard_collects(data@->Array_0, rest);
                    assert(evaluate(data@, path)->Ok_0->Array_0 =~= all@->Array_0);
                }
                Ok(all)
            },
            _ => Err(FilterError::WildcardOnNonArray),
        },
        Token::Key(key) => match data {
            Value::Object(fields) => {
                let name = key.to_owned();
                let mut i: usize = 0;
                while i < fields.len()
                    invariant
                        next == from + 1,
                        next <= tokens@.len(),
                        path == steps(tokens@).skip(from as int),
                        rest == steps(tokens@).skip(next as int),
                        path.len() > 0 && path[0] == Step::Key(name@) && path.drop_first() == rest,
                        data@ is Object,
                        views_fields(data@->Object_0, fields@),
                        i <= fields@.len(),
                        forall|j: int| 0 <= j < i ==> fields@[j].0@ != name@,
                    decreases fields@.len() - i,
                {
                    if fields[i].0 == name {
                        proof {
                            lemma_lookup_first(data@->Object_0, name@, i as int);
                        }
                        return filter_from(&fields[i].1, tokens, next);
                    }
                    i = i + 1;
                }
                proof {
                    lemma_lookup_none(data@->Object_0, name@);
                }
                Err(FilterError::KeyNotFound(name))
            },
            Value::Array(items) => match parse_index(key) {
                Some(index) => {
                    if index < items.len() {
                        filter_from(&items[index], tokens, next)
                    } else {
                        Err(FilterError::IndexOutOfBounds(index, items.len()))
                    }
                },
                None => Err(FilterError::InvalidIndex(key.to_owned())),
            },
            _ => Err(FilterError::CannotDescendIntoScalar(key.to_owned())),
        },
    }
}

/// The empty path leads to the value it starts from.
pub proof fn lemma_empty_path(value: Json)
    ensures
        evaluate(value, Seq::empty()) == Ok::<Json, Failure>(value),
{
}

/// Whether `value` has no parts: it is neither an array nor an object.
pub open spec fn is_scalar(value: Json) -> bool {
    value is Null || value is Bool || value is Number || value is String
}

/// A key step never enters a scalar, whatever follows it in the path.
pub proof fn lemma_scalar_descent_fails(value: Json, name: Seq<char>, rest: Seq<Step>)
    requires
        is_scalar(value),
    ensures
        evaluate(value, seq![Step::Key(name)] + rest) == Err::<Json, Failure>(
            Failure::CannotDescendIntoScalar(name),
        ),
{
}

/// A wildcard step fails on whatever is not an array, whatever follows it in
/// the path.
pub proof fn lemma_wildcard_on_non_array(value: Json, rest: Seq<Step>)
    requires
        !(value is Array),
    ensures
        evaluate(value, seq![Step::Any] + rest) == Err::<Json, Failure>(
            Failure::WildcardOnNonArray,
        ),
{
}

/// A wildcard step fails fast. Where following `rest` fails from the element
/// at `i`, the whole step fails; and where it fails from no element before
/// that one, the step fails with that element's failure, whatever the later
/// elements would give.
pub proof fn lemma_wildcard_fails_fast(items: Seq<Json>, rest: Seq<Step>, i: int)
    requires
        0 <= i < items.len(),
        evaluate(items[i], rest) is Err,
    ensures
        evaluate(Json::Array(items), seq![Step::Any] + rest) is Err,
        (forall|j: int| 0 <= j < i ==> evaluate(items[j], rest) is Ok) ==> evaluate(
            Json::Array(items),
            seq![Step::Any] + rest,
        ) == evaluate(items[i], rest),
{
    let path = seq![Step::Any] + rest;
    assert(path.drop_first() =~= rest);
    let results = evaluate_each(items, rest);
    assert(results[i] is Err);
    if forall|j: int| 0 <= j < i ==> evaluate(items[j], rest) is Ok {
        lemma_gather_first_failure(results, i);
    }
}

/// A wildcard step keeps order and shape: where following `rest` succeeds
/// from every element, the step yields an array of the same length whose
/// element at each position is what the element there gave.
pub proof fn lemma_wildcard_collects(items: Seq<Json>, rest: Seq<Step>)
    requires
        forall|j: int| 0 <= j < items.len() ==> evaluate(items[j], rest) is Ok,
    ensures
        evaluate(Json::Array(items), seq![Step::Any] + rest) matches Ok(Json::Array(found))
            && found.len() == items.len() && forall|j: int|
            0 <= j < items.len() ==> evaluate(items[j], rest) == Ok::<Json, Failure>(found[j]),
{
    let path = seq![Step::Any] + rest;
    assert(path.drop_first() =~= rest);
    let results = evaluate_each(items, rest);
    assert forall|j: int| 0 <= j < results.len() implies results[j] is Ok by {
        assert(results[j] == evaluate(items[j], rest));
    }
}

/// The first failure decides what `gather` yields.
pub proof fn lemma_gather_first_failure(results: Seq<Result<Json, Failure>>, i: int)
    requires
        is_first_failure(results, i),
    ensures
        gather(results) == Err::<Seq<Json>, Failure>(results[i]->Err_0),
{
    let k = choose|k: int| is_first_failure(results, k);
    assert(is_first_failure(results, k));
    assert(k == i) by {
        if k < i {
            assert(results[k] is Ok);
        }
        if i < k {
            assert(results[i] is Ok);
        }
    }
}

/// `lookup` finds the field at `i` when that is the first of its name.
pub proof fn lemma_lookup_first(fields: Seq<(Seq<char>, Json)>, name: Seq<char>, i: int)
    requires
        0 <= i < fields.len(),
        fields[i].0 == name,
        forall|j: int| 0 <= j < i ==> fields[j].0 != name,
    ensures
        lookup(fields, name) == Some(fields[i].1),
    decreases i,
{
    if i > 0 {
        let rest = fields.drop_first();
        assert forall|j: int| 0 <= j < i - 1 implies rest[j].0 != name by {
            assert(rest[j] == fields[j + 1]);
        }
        lemma_lookup_first(rest, name, i - 1);
    }
}

/// `lookup` finds nothing where no field bears the name.
pub proof fn lemma_lookup_none(fields: Seq<(Seq<char>, Json)>, name: Seq<char>)
    requires
        forall|j: int| 0 <= j < fields.len() ==> fields[j].0 != name,
    ensures
        lookup(fields, name) is None,
    decreases fields.len(),
{
    if fields.len() > 0 {
        let rest = fields.drop_first();
        assert forall|j: int| 0 <= j < rest.len() implies rest[j].0 != name by {
            assert(rest[j] == fields[j + 1]);
        }
        lemma_lookup_none(rest, name);
    }
}

/// What `lookup` finds is a field of that name with no field of that name
/// before it; and where it finds nothing, no field bears the name.
pub proof fn lemma_lookup_result(fields: Seq<(Seq<char>, Json)>, name: Seq<char>)
    ensures
        match lookup(fields, name) {
            Some(value) => exists|i: int|
                0 <= i < fields.len() && #[trigger] fields[i] == (name, value) && forall|j: int|
                    0 <= j < i ==> fields[j].0 != name,
            None => forall|j: int| 0 <= j < fields.len() ==> fields[j].0 != name,
        },
    decreases fields.len(),
{
    if fields.len() > 0 {
        if fields[0].0 == name {
            assert(fields[0] == (name, fields[0].1));
        } else {
            let rest = fields.drop_first();
            lemma_lookup_result(rest, name);
            match lookup(rest, name) {
                Some(value) => {
                    let i = choose|i: int|
                        0 <= i < rest.len() && #[trigger] rest[i] == (name, value) && forall|
                            j: int,
                        |
                            0 <= j < i ==> rest[j].0 != name;
                    assert(fields[i + 1] == (name, value));
                    assert forall|j: int| 0 <= j < i + 1 implies fields[j].0 != name by {
                        if j > 0 {
                            assert(fields[j] == rest[j - 1]);
                        }
                    }
                },
                None => {
                    assert forall|j: int| 0 <= j < fields.len() implies fields[j].0 != name by {
                        if j > 0 {
                            assert(fields[j] == rest[j - 1]);
                        }
                    }
                },
            }
        }
    }
}

/// Among fields of distinct names a lookup does not depend on their order:
/// it finds `value` exactly when one of the fields is `name` with `value`.
pub proof fn lemma_lookup_distinct(
    fields: Seq<(Seq<char>, Json)>,
    name: Seq<char>,
    value: Json,
)
    requires
        distinct_names(fields),
    ensures
        lookup(fields, name) == Some(value) <==> fields.contains((name, value)),
{
    lemma_lookup_result(fields, name);
    if fields.contains((name, value)) {
        let i = choose|i: int| 0 <= i < fields.len() && fields[i] == (name, value);
        lemma_lookup_first(fields, name, i);
    }
}

/// Following a path makes no object with two fields of one name: where the
/// value has none, what the path leads to has none.
pub proof fn lemma_evaluate_keeps_distinct_names(value: Json, path: Seq<Step>)
    requires
        value.has_distinct_names(),
    ensures
        evaluate(value, path) matches Ok(found) ==> found.has_distinct_names(),
    decreases path.len(),
{
    if path.len() > 0 {
        let rest = path.drop_first();
        match (path[0], value) {
            (Step::Any, Json::Array(items)) => {
                let results = evaluate_each(items, rest);
                if gather(results) is Ok {
                    let found = gather(results)->Ok_0;
                    assert forall|i: int| 0 <= i < found.len() implies (
                    #[trigger] found[i]).has_distinct_names() by {
                        assert(results[i] == evaluate(items[i], rest));
                        assert(items[i].has_distinct_names());
                        lemma_evaluate_keeps_distinct_names(items[i], rest);
                    }
                }
            },
            (Step::Key(name), Json::Object(fields)) => {
                lemma_lookup_result(fields, name);
                if lookup(fields, name) is Some {
                    let child = lookup(fields, name)->Some_0;
                    let i = choose|i: int|
                        0 <= i < fields.len() && #[trigger] fields[i] == (name, child);
                    assert(fields[i].1.has_distinct_names());
                    lemma_evaluate_keeps_distinct_names(child, rest);
                }
            },
            (Step::Key(name), Json::Array(items)) => {
                if as_index(name) is Some && as_index(name)->Some_0 < items.len() {
                    let child = items[as_index(name)->Some_0 as int];
                    assert(child.has_distinct_names());
                    lemma_evaluate_keeps_distinct_names(child, rest);
                }
            },
            _ => {},
        }
    }
}

} // verus!
