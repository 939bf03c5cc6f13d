use rustful_json_server::json::field::{Decimal, JsonField, JsonFieldType, ParseJsonError};
use rustful_json_server::json::parser::{
    identifier_parser, number_parser, parse_json, peek_next_non_white_space_char, string_parser,
};

fn obj(pairs: Vec<(&str, JsonField)>) -> JsonField {
    let mut o = JsonField::new_json_obj();
    for (key, value) in pairs {
        o.insert(key, value).unwrap();
    }
    o
}

fn arr(elems: Vec<JsonField>) -> JsonField {
    let mut a = JsonField::new_json_arr();
    for value in elems {
        a.push(value).unwrap();
    }
    a
}

fn s(text: &str) -> JsonField {
    JsonField::String(text.to_owned())
}

fn dec(neg: bool, whole: u64, frac: Vec<u8>) -> JsonField {
    JsonField::Float(Decimal { neg, whole, frac })
}

#[test]
fn it_parses_json_string_into_json_fields() {
    let ex = String::from(
        r#"{
            "hello": "world",
            "hi": "I'm fine!",
            "is_rust": true,
            "undefined": null,
            "age": 18,
            "something-else": "123",
            "negative": -12,
            "float": 0.123,
            "neg-float": -9.876
        }"#,
    );

    let result_obj = obj(vec![
        ("hello", s("world")),
        ("hi", s("I'm fine!")),
        ("is_rust", JsonField::Boolean(true)),
        ("undefined", JsonField::Null),
        ("age", JsonField::Int(18)),
        ("something-else", s("123")),
        ("negative", JsonField::Int(-12)),
        ("float", dec(false, 0, vec![1, 2, 3])),
        ("neg-float", dec(true, 9, vec![8, 7, 6])),
    ]);

    assert_eq!(parse_json(&ex, 0), Ok((result_obj, ex.len() - 1)));
}

#[test]
fn it_parses_nested_json_string_into_json_fields() {
    let ex = String::from(
        r#"{
            "parent": {
                "child": 123
            },
            "prop-in-parent": true,
            "parent-2": {
                "child": "this is nested",
                "child-2": {
                    "grand-child": 0.123
                }
            }
        }"#,
    );

    let child_obj = obj(vec![("child", JsonField::Int(123))]);
    let grandchild_obj = obj(vec![("grand-child", dec(false, 0, vec![1, 2, 3]))]);
    let child_obj2 = obj(vec![("child", s("this is nested")), ("child-2", grandchild_obj)]);
    let result_obj = obj(vec![
        ("parent", child_obj),
        ("prop-in-parent", JsonField::Boolean(true)),
        ("parent-2", child_obj2),
    ]);

    assert_eq!(parse_json(&ex, 0), Ok((result_obj, ex.len() - 1)));
}

#[test]
fn it_parses_array_of_elements() {
    let ex = String::from(
        r#"[
            -987.456,
            null,
            "Hello World",
            false,
            123,
            "Hi!"
        ]"#,
    );

    let result = arr(vec![
        dec(true, 987, vec![4, 5, 6]),
        JsonField::Null,
        s("Hello World"),
        JsonField::Boolean(false),
        JsonField::Int(123),
        s("Hi!"),
    ]);

    assert_eq!(parse_json(&ex, 0), Ok((result, ex.len() - 1)));
}

#[test]
fn it_parses_object_containing_array() {
    let ex = String::from(
        r#"{
            "numbers": [1, 2, 3]
        }"#,
    );

    let numbers = arr(vec![JsonField::Int(1), JsonField::Int(2), JsonField::Int(3)]);
    let result = obj(vec![("numbers", numbers)]);

    assert_eq!(parse_json(&ex, 0), Ok((result, ex.len() - 1)));
}

#[test]
fn it_parses_array_containing_object() {
    let ex = String::from(
        r#"[
            { "prop": 123 }
        ]"#,
    );

    let inner = obj(vec![("prop", JsonField::Int(123))]);
    let result = arr(vec![inner]);

    assert_eq!(parse_json(&ex, 0), Ok((result, ex.len() - 1)));
}

#[test]
fn it_parses_composite_object() {
    let ex = String::from(
        r#"{
            "prop": "something",
            "arr": [
                123,
                { "child": true },
                null
            ]
        }"#,
    );

    let child = obj(vec![("child", JsonField::Boolean(true))]);
    let elems = arr(vec![JsonField::Int(123), child, JsonField::Null]);
    let result = obj(vec![("prop", s("something")), ("arr", elems)]);

    assert_eq!(parse_json(&ex, 0), Ok((result, ex.len() - 1)));
}

#[test]
fn it_returns_err_when_json_obj_without_closing_braces() {
    let ex = String::from(
        r#"{
            "hello": "world"
        "#,
    );

    assert_eq!(parse_json(&ex, 0), Err(ParseJsonError::UnexpectedEndOfInput));
}

#[test]
fn it_does_not_allow_key_without_double_quotes_surrounded() {
    let ex = String::from(
        r#"{
            hello: "world"
        "#,
    );

    assert_eq!(parse_json(&ex, 0), Err(ParseJsonError::NonStringObjectKey));

    let ex = String::from(
        r#"{
            "hello": "world",
            hi: "How are you?"
        "#,
    );

    assert_eq!(parse_json(&ex, 0), Err(ParseJsonError::NonStringObjectKey));
}

#[test]
fn round_trip_returns_a_structurally_equal_value() {
    let child = obj(vec![("child", JsonField::Boolean(true))]);
    let elems = arr(vec![
        JsonField::Int(123),
        child,
        JsonField::Null,
        dec(true, 10, vec![0, 5]),
        s("deep text"),
    ]);
    let v = obj(vec![("prop", s("something")), ("arr", elems), ("n", JsonField::Int(-7))]);

    let text = v.stringify();
    let (back, consumed) = parse_json(&text, 0).unwrap();
    assert_eq!(back, v);
    assert_eq!(consumed, text.len() - 1);
}

#[test]
fn round_trip_keeps_extreme_integers() {
    let v = arr(vec![JsonField::Int(i64::MIN), JsonField::Int(i64::MAX), JsonField::Int(0)]);
    let text = v.stringify();
    assert_eq!(text, "[-9223372036854775808,9223372036854775807,0]");
    let (back, _) = parse_json(&text, 0).unwrap();
    assert_eq!(back, v);
}

#[test]
fn stringify_renders_compact_text() {
    let v = obj(vec![
        ("a", JsonField::Int(-5)),
        ("b", dec(true, 0, vec![2, 5, 0])),
        ("c", arr(vec![JsonField::Boolean(false), JsonField::Null])),
    ]);
    assert_eq!(v.stringify(), r#"{"a":-5,"b":-0.250,"c":[false,null]}"#);
}

#[test]
fn stringify_renders_empty_containers() {
    assert_eq!(JsonField::new_json_arr().stringify(), "[]");
    assert_eq!(JsonField::new_json_obj().stringify(), "{}");
    let nested = obj(vec![("empty", arr(vec![])), ("none", obj(vec![]))]);
    assert_eq!(nested.stringify(), r#"{"empty":[],"none":{}}"#);
}

#[test]
fn parser_accepts_scalars_at_top_level() {
    assert_eq!(parse_json("true", 0), Ok((JsonField::Boolean(true), 3)));
    assert_eq!(parse_json("null", 0), Ok((JsonField::Null, 3)));
    assert_eq!(parse_json("-42", 0), Ok((JsonField::Int(-42), 2)));
    assert_eq!(parse_json("7.25", 0), Ok((dec(false, 7, vec![2, 5]), 3)));
    assert_eq!(parse_json(r#""hi there""#, 0), Ok((s("hi there"), 9)));
}

#[test]
fn parser_reports_each_error_kind() {
    assert_eq!(parse_json("}", 0), Err(ParseJsonError::UnmatchedClosingBrace));
    assert_eq!(parse_json("]", 0), Err(ParseJsonError::UnmatchedClosingBracket));
    assert_eq!(parse_json(r#""abc"#, 0), Err(ParseJsonError::UnterminatedString));
    assert_eq!(parse_json(r#"{"":1}"#, 0), Err(ParseJsonError::EmptyObjectKey));
    assert_eq!(parse_json("[1.2.3]", 0), Err(ParseJsonError::DuplicateDecimalPoint));
    assert_eq!(parse_json("[maybe]", 0), Err(ParseJsonError::UnrecognizedIdentifier));
    assert_eq!(
        parse_json("[99999999999999999999999999]", 0),
        Err(ParseJsonError::NumberOutOfRange)
    );
    assert_eq!(parse_json("[%]", 0), Err(ParseJsonError::UnexpectedCharacter('%')));
    assert_eq!(parse_json("", 0), Err(ParseJsonError::UnexpectedEndOfInput));
    assert_eq!(parse_json("   \n ", 0), Err(ParseJsonError::UnexpectedEndOfInput));
}

#[test]
fn object_equality_ignores_member_order() {
    let left = obj(vec![("a", JsonField::Int(1)), ("b", JsonField::Int(2))]);
    let right = obj(vec![("b", JsonField::Int(2)), ("a", JsonField::Int(1))]);
    assert_eq!(left, right);

    let different = obj(vec![("a", JsonField::Int(1)), ("b", JsonField::Int(3))]);
    assert_ne!(left, different);
    let fewer = obj(vec![("a", JsonField::Int(1))]);
    assert_ne!(left, fewer);
}

#[test]
fn array_equality_respects_order() {
    let left = arr(vec![JsonField::Int(1), JsonField::Int(2)]);
    let right = arr(vec![JsonField::Int(2), JsonField::Int(1)]);
    assert_ne!(left, right);
    let same = arr(vec![JsonField::Int(1), JsonField::Int(2)]);
    assert_eq!(left, same);
}

#[test]
fn value_model_reports_variant_tags() {
    let v = JsonField::Int(3);
    assert!(v.is(JsonFieldType::Int));
    assert!(!v.is(JsonFieldType::Float));
    assert_eq!(v.field_type(), JsonFieldType::Int);
    assert!(JsonField::Null.is_null());
    assert!(!v.is_null());
}

#[test]
fn value_model_accessors_report_mismatches() {
    let v = arr(vec![JsonField::Int(1)]);
    assert!(v.unwrap_as_ref_array().is_ok());
    let e = v.unwrap_as_ref_object().unwrap_err();
    assert_eq!(e.expected, JsonFieldType::Object);
    assert_eq!(e.actual, JsonFieldType::Array);
    let empty = obj(vec![]);
    let members = empty.unwrap_as_ref_object().unwrap();
    assert_eq!(members.len(), 0);
    let i = JsonField::Int(9);
    assert_eq!(i.unwrap_as_ref_int(), Ok(&9));

    let mut not_container = JsonField::Boolean(true);
    assert!(not_container.insert("k", JsonField::Null).is_err());
    assert!(not_container.push(JsonField::Null).is_err());
}

#[test]
fn object_insert_replaces_an_existing_key() {
    let mut o = obj(vec![("a", JsonField::Int(1)), ("b", JsonField::Int(2))]);
    o.insert("a", JsonField::Int(9)).unwrap();
    assert_eq!(o.stringify(), r#"{"a":9,"b":2}"#);
    assert_eq!(o, obj(vec![("b", JsonField::Int(2)), ("a", JsonField::Int(9))]));
}

#[test]
fn parser_resumes_from_a_nonzero_cursor() {
    let text = "xx[1,2]";
    assert_eq!(
        parse_json(text, 2),
        Ok((arr(vec![JsonField::Int(1), JsonField::Int(2)]), 6))
    );
}

#[test]
fn parse_error_scenarios() {
    assert_eq!(parse_json("{\"a\":}", 0), Err(ParseJsonError::UnmatchedClosingBrace));
    assert_eq!(parse_json("{a:1}", 0), Err(ParseJsonError::NonStringObjectKey));
    assert_eq!(parse_json("{\"a\":1", 0), Err(ParseJsonError::UnexpectedEndOfInput));
}

#[test]
fn the_string_parser_stops_at_the_closing_quote() {
    let chars: Vec<char> = "\"ab\"c".chars().collect();
    assert_eq!(string_parser::parse(0, &chars), Ok(("ab".to_owned(), 3)));
    let open_ended: Vec<char> = "\"ab".chars().collect();
    assert_eq!(string_parser::parse(0, &open_ended), Err(ParseJsonError::UnterminatedString));
}

#[test]
fn the_number_parser_moves_the_cursor_past_the_literal() {
    let chars: Vec<char> = "-12.50]".chars().collect();
    let mut cursor = 0;
    let parsed = number_parser::parse(&mut cursor, &chars).unwrap();
    assert_eq!(parsed, dec(true, 12, vec![5, 0]));
    assert_eq!(cursor, 6);

    let chars: Vec<char> = "42".chars().collect();
    let mut cursor = 0;
    assert_eq!(number_parser::parse(&mut cursor, &chars), Ok(JsonField::Int(42)));
    assert_eq!(cursor, 2);
}

#[test]
fn the_identifier_parser_recognizes_the_three_literals() {
    let chars: Vec<char> = "true,".chars().collect();
    assert_eq!(identifier_parser::parse(0, &chars), Ok((JsonField::Boolean(true), 4)));
    let chars: Vec<char> = "null".chars().collect();
    assert_eq!(identifier_parser::parse(0, &chars), Ok((JsonField::Null, 4)));
    let chars: Vec<char> = "falsy".chars().collect();
    assert_eq!(
        identifier_parser::parse(0, &chars),
        Err(ParseJsonError::UnrecognizedIdentifier)
    );
}

#[test]
fn peeking_skips_whitespace_after_the_cursor() {
    let chars: Vec<char> = "x \n y".chars().collect();
    assert_eq!(peek_next_non_white_space_char(0, &chars), Some(('y', 4)));
    let chars: Vec<char> = "x  ".chars().collect();
    assert_eq!(peek_next_non_white_space_char(0, &chars), None);
}

#[test]
fn only_spaces_and_newlines_count_as_whitespace() {
    assert_eq!(
        parse_json("[ 1 ,\n2 ]", 0),
        Ok((arr(vec![JsonField::Int(1), JsonField::Int(2)]), 8))
    );
    assert_eq!(parse_json("[\t1]", 0), Err(ParseJsonError::UnexpectedCharacter('\t')));
}
