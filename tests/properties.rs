use relaxed_json::value::merge_json;
use relaxed_json::JsonValue::{Array, Boolean, Float, Int, Null, Object};
use relaxed_json::JsonValue::String as Text;
use relaxed_json::{json_value, json_value_root, parse, JsonValue, ParseError, Parsed};

fn obj(entries: Vec<(&str, JsonValue)>) -> JsonValue {
    Object(entries.into_iter().map(|(k, v)| (k.to_string(), v)).collect())
}

fn doc(input: &str) -> Result<JsonValue, ParseError> {
    parse(input.as_bytes())
}

#[test]
fn scalars_round_trip() {
    assert_eq!(doc("\"k\" = null"), Ok(obj(vec![("k", Null)])));
    assert_eq!(json_value(b"true"), Parsed::Done(Boolean(true), 4));
    assert_eq!(json_value(b"+17"), Parsed::Done(Int(17), 3));
    assert_eq!(json_value(b"9223372036854775807"), Parsed::Done(Int(i64::MAX), 19));
    assert_eq!(json_value(b"-9223372036854775808"), Parsed::Done(Int(i64::MIN), 20));
    assert_eq!(json_value(b"1e5"), Parsed::Done(Float("1e5".to_string()), 3));
    assert_eq!(json_value(b".5"), Parsed::Done(Float(".5".to_string()), 2));
    assert_eq!(json_value(b"\"a\\nb\""), Parsed::Done(Text("a\\nb".to_string()), 6));
    assert_eq!(json_value("\"é\"".as_bytes()), Parsed::Done(Text("é".to_string()), 4));
}

#[test]
fn integer_overflow_is_malformed() {
    assert_eq!(json_value(b"9223372036854775808"), Parsed::Malformed(0));
    assert_eq!(json_value(b"-9223372036854775809"), Parsed::Malformed(0));
    assert_eq!(json_value(b"123456789012345678901234"), Parsed::Malformed(0));
}

#[test]
fn invalid_utf8_string_is_malformed() {
    assert_eq!(json_value(&[34, 0xff, 34]), Parsed::Malformed(0));
}

#[test]
fn whitespace_and_comments_do_not_change_arrays() {
    for input in ["[1,2]", "[ 1 , 2 ]", "[1\n2]", "[1#c\n2]", "[1// c\n2]", "[\t1,\t2\t]"] {
        assert_eq!(json_value(input.as_bytes()), Parsed::Done(Array(vec![Int(1), Int(2)]), input.len()));
    }
}

#[test]
fn comma_inference_needs_newline_or_comma() {
    assert_eq!(json_value(b"[1\n2]"), json_value(b"[1,2]"));
    assert!(matches!(json_value(b"[1 2]"), Parsed::Malformed(_)));
    assert!(matches!(doc("\"a\":1 \"b\":2"), Err(ParseError::TrailingData(_))));
    assert!(matches!(json_value(b"[1,,2]"), Parsed::Malformed(_)));
    assert_eq!(json_value(b"[1\n]"), Parsed::Done(Array(vec![Int(1)]), 4));
}

#[test]
fn repeated_keys_merge_in_one_document() {
    let expected = || obj(vec![("a", obj(vec![("b", Int(1)), ("c", Int(2))]))]);
    assert_eq!(doc("{\"a\":{\"b\":1}, \"a\":{\"c\":2}}"), Ok(expected()));
    assert_eq!(doc("\"a\" { \"b\": 1 }\n\"a\" { \"c\": 2 }"), Ok(expected()));
    assert_eq!(doc("\"a\":{\"b\":1}\n\"a\":[2]"), Ok(obj(vec![("a", Array(vec![Int(2)]))])));
    assert_eq!(doc("\"a\":[1]\n\"a\":[2]"), Ok(obj(vec![("a", Array(vec![Int(2)]))])));
}

#[test]
fn merge_chains_are_associative() {
    let a = || obj(vec![("x", obj(vec![("p", Int(1))]))]);
    let b = || obj(vec![("x", obj(vec![("q", Int(2))])), ("y", Null)]);
    let c = || obj(vec![("x", obj(vec![("p", Int(3))]))]);
    let left = merge_json(merge_json(a(), b()), c());
    let right = merge_json(a(), merge_json(b(), c()));
    assert_eq!(left, right);
    assert_eq!(left, obj(vec![("x", obj(vec![("p", Int(3)), ("q", Int(2))])), ("y", Null)]));
}

#[test]
fn separator_forms_agree() {
    assert_eq!(doc("{\"a\":42}"), doc("{\"a\"=42}"));
    assert_eq!(doc("{\"a\" {\"b\":1}}"), doc("{\"a\":{\"b\":1}}"));
    assert_eq!(doc("{\"a\" {\"b\":1}}"), Ok(obj(vec![("a", obj(vec![("b", Int(1))]))])));
    assert!(matches!(doc("{\"a\" 42}"), Err(ParseError::Malformed(_))));
}

#[test]
fn root_braces_may_be_omitted() {
    assert_eq!(doc("\"a\" = 42"), doc("{\"a\": 42}"));
    assert_eq!(doc("\"a\" = 42"), Ok(obj(vec![("a", Int(42))])));
    assert_eq!(doc(""), Ok(obj(vec![])));
}

#[test]
fn incomplete_versus_malformed() {
    assert_eq!(json_value(b"\"\\\"abc"), Parsed::Incomplete);
    assert_eq!(doc("\"\\\"abc"), Err(ParseError::Incomplete));
    assert_eq!(json_value(b"@@@"), Parsed::Malformed(0));
    assert_eq!(doc("@@@"), Err(ParseError::TrailingData(0)));
    assert_eq!(doc("{@@@}"), Err(ParseError::Malformed(1)));
    assert_eq!(doc("[1, \"ab"), Err(ParseError::TrailingData(0)));
    assert_eq!(doc("\"a\": [1, \"ab"), Err(ParseError::Incomplete));
}

#[test]
fn trailing_data_is_reported() {
    assert_eq!(doc("{\"a\":1} x"), Err(ParseError::TrailingData(8)));
    assert_eq!(json_value_root(b"{\"a\":1} x"), Parsed::Done(obj(vec![("a", Int(1))]), 8));
}

#[test]
fn listed_scenarios() {
    assert_eq!(doc("{\"a\":1,\"b\":2}"), Ok(obj(vec![("a", Int(1)), ("b", Int(2))])));
    assert_eq!(
        json_value(b"[1,[2,3]]"),
        Parsed::Done(Array(vec![Int(1), Array(vec![Int(2), Int(3)])]), 9)
    );
    assert_eq!(
        doc("\"a\" { \"b\": 1 }\n\"a\" { \"c\": 2 }"),
        Ok(obj(vec![("a", obj(vec![("b", Int(1)), ("c", Int(2))]))]))
    );
}

#[test]
fn blanks_only_move_positions() {
    assert_eq!(json_value(b"[1,2]"), Parsed::Done(Array(vec![Int(1), Int(2)]), 5));
    assert_eq!(json_value(b"[ \n 1,2]"), Parsed::Done(Array(vec![Int(1), Int(2)]), 8));
    assert_eq!(json_value(b"[@]"), Parsed::Malformed(1));
    assert_eq!(json_value(b"[  @]"), Parsed::Malformed(3));
    assert_eq!(json_value_root(b"\"a\"=1"), Parsed::Done(obj(vec![("a", Int(1))]), 5));
    assert_eq!(json_value_root(b" \t\n\"a\"=1"), Parsed::Done(obj(vec![("a", Int(1))]), 8));
}

#[test]
fn wrapping_pairs_in_braces() {
    assert_eq!(
        json_value_root(b"\"a\" = 42\n\"b\" {\"c\": [1]}"),
        Parsed::Done(obj(vec![("a", Int(42)), ("b", obj(vec![("c", Array(vec![Int(1)]))]))]), 23)
    );
    assert_eq!(
        json_value_root(b"{\"a\" = 42\n\"b\" {\"c\": [1]}}"),
        Parsed::Done(obj(vec![("a", Int(42)), ("b", obj(vec![("c", Array(vec![Int(1)]))]))]), 25)
    );
}
