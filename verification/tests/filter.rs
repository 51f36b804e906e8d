use yajq::{filter, parse_expression, FilterError, Token, Value};

fn to_value(json: &serde_json::Value) -> Value {
    match json {
        serde_json::Value::Null => Value::Null,
        serde_json::Value::Bool(b) => Value::Bool(*b),
        serde_json::Value::Number(n) => Value::Number(n.to_string()),
        serde_json::Value::String(s) => Value::String(s.clone()),
        serde_json::Value::Array(items) => Value::Array(items.iter().map(to_value).collect()),
        serde_json::Value::Object(fields) => Value::Object(
            fields
                .iter()
                .map(|(name, value)| (name.clone(), to_value(value)))
                .collect(),
        ),
    }
}

fn parse_data_(data: &str) -> Value {
    let json: serde_json::Value = serde_json::from_str(data).unwrap();
    to_value(&json)
}

fn try_filter(data: &str, expression: &str) -> Result<Value, FilterError> {
    filter(&parse_data_(data), parse_expression(expression))
}

fn filter_(data: &str, expression: &str) -> Value {
    try_filter(data, expression).unwrap()
}

fn text(s: &str) -> Value {
    Value::String(s.to_string())
}

#[test]
fn test_filter_simple() {
    assert_eq!(filter_(r#"{"x": "value"}"#, "x"), parse_data_(r#""value""#))
}

#[test]
fn test_filter_multiple_keys() {
    assert_eq!(
        filter_(r#"{"x": {"y": "value"}}"#, "x.y"),
        parse_data_(r#""value""#)
    )
}

#[test]
fn test_filter_index() {
    assert_eq!(
        filter_(r#"{"x": ["value"]}"#, "x.0"),
        parse_data_(r#""value""#)
    )
}

#[test]
fn test_filter_star() {
    assert_eq!(
        filter_(
            r#"{"x": [{"name": "value1"}, {"name": "value2"}]}"#,
            "x.*.name"
        ),
        parse_data_(r#"["value1", "value2"]"#)
    )
}

#[test]
fn test_filter_multiple_stars() {
    assert_eq!(
        filter_(
            r#"{"x": [[{"name": "value1"}], [{"name": "value2"}]]}"#,
            "x.*.*.name"
        ),
        parse_data_(r#"[["value1"], ["value2"]]"#)
    )
}

#[test]
fn results_are_written_out_as_expected() {
    assert_eq!(filter_(r#"{"x": ["value"]}"#, "x.0"), text("value"));
    assert_eq!(
        filter_(
            r#"{"x": [{"name": "value1"}, {"name": "value2"}]}"#,
            "x.*.name"
        ),
        Value::Array(vec![text("value1"), text("value2")])
    );
    assert_eq!(
        filter_(
            r#"{"x": [[{"name": "value1"}], [{"name": "value2"}]]}"#,
            "x.*.*.name"
        ),
        Value::Array(vec![
            Value::Array(vec![text("value1")]),
            Value::Array(vec![text("value2")])
        ])
    );
}

#[test]
fn empty_path_gives_the_document_itself() {
    let documents = [
        "null",
        "true",
        "false",
        "0",
        "-12",
        "1.5",
        "1e300",
        r#""""#,
        r#""text""#,
        "[]",
        "{}",
        r#"[1, [2, [3, {"a": null}]], "x"]"#,
        r#"{"b": {"c": [true, false]}, "a": 18446744073709551615}"#,
    ];
    for document in documents {
        let data = parse_data_(document);
        assert_eq!(filter(&data, Vec::new()), Ok(parse_data_(document)));
    }
}

#[test]
fn empty_path_copies_and_leaves_the_document_alone() {
    let data = parse_data_(r#"{"x": [1, {"y": "z"}]}"#);
    let copy = filter(&data, vec![]).unwrap();
    assert_eq!(copy, data);
    assert_eq!(data, parse_data_(r#"{"x": [1, {"y": "z"}]}"#));
}

#[test]
fn index_beyond_the_array() {
    assert_eq!(
        try_filter(r#"{"x": ["value"]}"#, "x.1"),
        Err(FilterError::IndexOutOfBounds(1, 1))
    );
    assert_eq!(
        try_filter("[]", "0"),
        Err(FilterError::IndexOutOfBounds(0, 0))
    );
    assert_eq!(
        try_filter("[1, 2, 3]", "18446744073709551615"),
        Err(FilterError::IndexOutOfBounds(usize::MAX, 3))
    );
}

#[test]
fn index_within_the_array() {
    assert_eq!(filter_("[10, 20, 30]", "0"), parse_data_("10"));
    assert_eq!(filter_("[10, 20, 30]", "2"), parse_data_("30"));
    assert_eq!(filter_("[10, 20, 30]", "+1"), parse_data_("20"));
    assert_eq!(filter_("[10, 20, 30]", "002"), parse_data_("30"));
    assert_eq!(filter_("[[1, 2], [3, 4]]", "1.0"), parse_data_("3"));
}

#[test]
fn text_that_is_no_index() {
    for key in ["a", "", "-1", "1.5", " 1", "1x", "+", "99999999999999999999999999"] {
        assert_eq!(
            filter(&parse_data_("[1, 2, 3]"), vec![Token::Key(key)]),
            Err(FilterError::InvalidIndex(key.to_string()))
        );
    }
}

#[test]
fn missing_key() {
    assert_eq!(
        try_filter(r#"{"x": {"y": "value"}}"#, "x.z"),
        Err(FilterError::KeyNotFound("z".to_string()))
    );
    assert_eq!(
        try_filter("{}", "a"),
        Err(FilterError::KeyNotFound("a".to_string()))
    );
}

#[test]
fn keys_are_compared_whole_and_exactly() {
    let data = r#"{"ab": 1, "a": 2, "": 3, "A": 4, "0": 5}"#;
    assert_eq!(filter_(data, "a"), parse_data_("2"));
    assert_eq!(filter_(data, "ab"), parse_data_("1"));
    assert_eq!(filter_(data, "A"), parse_data_("4"));
    assert_eq!(filter_(data, "0"), parse_data_("5"));
    assert_eq!(
        try_filter(data, "b"),
        Err(FilterError::KeyNotFound("b".to_string()))
    );
    assert_eq!(
        try_filter(data, "abc"),
        Err(FilterError::KeyNotFound("abc".to_string()))
    );
    assert_eq!(
        try_filter(data, "00"),
        Err(FilterError::KeyNotFound("00".to_string()))
    );
}

#[test]
fn empty_segment_is_a_key_like_any_other() {
    assert_eq!(filter_(r#"{"": {"": 7}}"#, "."), parse_data_("7"));
    assert_eq!(
        try_filter(r#"{"x": 1}"#, ""),
        Err(FilterError::KeyNotFound(String::new()))
    );
    assert_eq!(
        try_filter(r#"{"x": {"y": 1}}"#, "x..y"),
        Err(FilterError::KeyNotFound(String::new()))
    );
    assert_eq!(
        try_filter("[1]", ""),
        Err(FilterError::InvalidIndex(String::new()))
    );
    assert_eq!(
        try_filter("1", ""),
        Err(FilterError::CannotDescendIntoScalar(String::new()))
    );
}

#[test]
fn first_field_of_a_name_is_the_one_found() {
    let data = Value::Object(vec![
        ("a".to_string(), text("first")),
        ("b".to_string(), text("other")),
        ("a".to_string(), text("second")),
    ]);
    assert_eq!(filter(&data, vec![Token::Key("a")]), Ok(text("first")));
    assert_eq!(filter(&data, vec![Token::Key("b")]), Ok(text("other")));
}

#[test]
fn key_never_enters_a_scalar() {
    for document in ["null", "true", "false", "0", "-1.25", r#""""#, r#""x""#] {
        for expression in ["a", "0", "a.b", "a.*", "0.0.0"] {
            let key = expression.split('.').next().unwrap();
            assert_eq!(
                try_filter(document, expression),
                Err(FilterError::CannotDescendIntoScalar(key.to_string()))
            );
        }
    }
    assert_eq!(
        try_filter(r#"{"x": "value"}"#, "x.y"),
        Err(FilterError::CannotDescendIntoScalar("y".to_string()))
    );
}

#[test]
fn wildcard_needs_an_array() {
    for document in ["null", "true", "0", r#""x""#, "{}", r#"{"a": [1]}"#] {
        assert_eq!(
            filter(&parse_data_(document), vec![Token::Any]),
            Err(FilterError::WildcardOnNonArray)
        );
        assert_eq!(
            try_filter(document, "*.a"),
            Err(FilterError::WildcardOnNonArray)
        );
    }
    assert_eq!(
        try_filter(r#"{"x": {"y": 1}}"#, "x.*"),
        Err(FilterError::WildcardOnNonArray)
    );
}

#[test]
fn wildcard_alone_copies_the_array() {
    assert_eq!(filter_("[1, [2], {}]", "*"), parse_data_("[1, [2], {}]"));
    assert_eq!(filter_("[]", "*"), parse_data_("[]"));
    assert_eq!(filter_("[]", "*.a.b"), parse_data_("[]"));
}

#[test]
fn wildcard_keeps_order_and_length() {
    assert_eq!(
        filter_(r#"[{"n": 3}, {"n": 1}, {"n": 2}, {"n": 1}]"#, "*.n"),
        parse_data_("[3, 1, 2, 1]")
    );
    assert_eq!(
        filter_("[[1, 2], [3, 4], [5, 6]]", "*.1"),
        parse_data_("[2, 4, 6]")
    );
    assert_eq!(
        filter_("[[1, 2], [3], []]", "*.*"),
        parse_data_("[[1, 2], [3], []]")
    );
}

#[test]
fn wildcard_fails_with_the_first_failure() {
    assert_eq!(
        try_filter(r#"[{"a": 1}, {"b": 2}, {"a": 3}]"#, "*.a"),
        Err(FilterError::KeyNotFound("a".to_string()))
    );
    assert_eq!(
        try_filter(r#"[{"a": 1}, 5, {"b": 2}, [0]]"#, "*.a"),
        Err(FilterError::CannotDescendIntoScalar("a".to_string()))
    );
    assert_eq!(
        try_filter(r#"[{"a": 1}, [0], 5]"#, "*.a"),
        Err(FilterError::InvalidIndex("a".to_string()))
    );
    assert_eq!(
        try_filter("[[1, 2], [3], 4]", "*.1"),
        Err(FilterError::IndexOutOfBounds(1, 1))
    );
    assert_eq!(
        try_filter("[[1], 2, [3]]", "*.*"),
        Err(FilterError::WildcardOnNonArray)
    );
    assert_eq!(
        try_filter(r#"[[{"a": 1}], [{"a": 2}, {"c": 3}], 7]"#, "*.*.a"),
        Err(FilterError::KeyNotFound("a".to_string()))
    );
}

#[test]
fn numbers_pass_through_untouched() {
    let numbers = vec![
        Value::Number("0".to_string()),
        Value::Number("-7".to_string()),
        Value::Number("1.5".to_string()),
        Value::Number("1e300".to_string()),
        Value::Number("18446744073709551615".to_string()),
    ];
    let data = Value::Object(vec![("n".to_string(), Value::Array(numbers.clone()))]);
    assert_eq!(
        filter(&data, parse_expression("n.*")),
        Ok(Value::Array(numbers.clone()))
    );
    assert_eq!(
        filter(&data, parse_expression("n.3")),
        Ok(Value::Number("1e300".to_string()))
    );
    assert_eq!(
        filter_(r#"{"n": [0, -7, 1.5, 18446744073709551615]}"#, "n.*"),
        parse_data_("[0, -7, 1.5, 18446744073709551615]")
    );
}

#[test]
fn same_query_same_answer() {
    let data = parse_data_(r#"{"x": [{"name": "value1"}, {"name": "value2"}, 3]}"#);
    for expression in ["x.*.name", "x.0.name", "x.2", "x", "y", "x.*"] {
        assert_eq!(
            filter(&data, parse_expression(expression)),
            filter(&data, parse_expression(expression))
        );
    }
}

fn names_are_distinct(value: &Value) -> bool {
    match value {
        Value::Array(items) => items.iter().all(names_are_distinct),
        Value::Object(fields) => {
            fields.iter().enumerate().all(|(i, (name, inner))| {
                names_are_distinct(inner) && fields[..i].iter().all(|(other, _)| other != name)
            })
        }
        _ => true,
    }
}

#[test]
fn lookup_does_not_depend_on_the_order_of_distinct_names() {
    let one = Value::Object(vec![
        ("a".to_string(), text("1")),
        ("b".to_string(), text("2")),
        ("c".to_string(), text("3")),
    ]);
    let other = Value::Object(vec![
        ("c".to_string(), text("3")),
        ("a".to_string(), text("1")),
        ("b".to_string(), text("2")),
    ]);
    for key in ["a", "b", "c", "d", ""] {
        assert_eq!(
            filter(&one, vec![Token::Key(key)]),
            filter(&other, vec![Token::Key(key)])
        );
    }
}

#[test]
fn results_keep_names_distinct() {
    let document = r#"{"x": [{"name": "value1", "more": {"a": 1, "b": [{"c": 2, "d": 3}]}},
                             {"name": "value2", "more": {"a": 4, "b": []}}],
                       "y": {"z": null}}"#;
    let data = parse_data_(document);
    assert!(names_are_distinct(&data));
    for expression in ["x", "x.*", "x.*.more", "x.0.more.b", "x.*.more.b.*", "y", "x.1"] {
        let found = filter(&data, parse_expression(expression)).unwrap();
        assert!(names_are_distinct(&found), "{}", expression);
    }
}
