use relaxed_json::JsonValue::{Array, Boolean, Int, Null, Object};
use relaxed_json::JsonValue::String as Text;
use relaxed_json::{json_value, json_value_root, JsonValue, Parsed};
use relaxed_json::lexer::json_whitespace;
use std::string::String as Str;

fn check_value(input: &str, expected: JsonValue) {
    assert_eq!(json_value(input.as_bytes()), Parsed::Done(expected, input.len()));
}

fn check_root(input: &str, expected: JsonValue) {
    assert_eq!(json_value_root(input.as_bytes()), Parsed::Done(expected, input.len()));
}

fn check_ws(input: &str) {
    assert_eq!(json_whitespace(input.as_bytes()), input.len());
}

fn check_float(input: &str, expected: f64) {
    match json_value(input.as_bytes()) {
        Parsed::Done(JsonValue::Float(text), end) => {
            assert_eq!(end, input.len());
            assert_eq!(text, input);
            assert_eq!(text.parse::<f64>().unwrap(), expected);
        }
        other => panic!("not a float: {:?}", other),
    }
}

#[test]
fn test_json_null() {
    check_value("null", Null);
}

#[test]
fn test_json_boolean() {
    check_value("true", Boolean(true));
    check_value("false", Boolean(false));
}

#[test]
fn test_json_int() {
    check_value("0", Int(0));
    check_value("1", Int(1));
    check_value("-2", Int(-2));
    check_value("42", Int(42));
    check_value("2834293023", Int(2834293023));
}

#[test]
fn test_json_float() {
    check_float("0.0", 0.0);
    check_float("4.2", 4.2);
    check_float("-4.2", -4.2);
    check_float("-4.2e1", -42.0);
    check_float("-4.2e-2", -0.042);
}

#[test]
fn test_json_string() {
    check_value("\"\"", Text(Str::from("")));
    check_value("\"a\"", Text(Str::from("a")));
    check_value("\"ab\"", Text(Str::from("ab")));
    check_value("\"a b\"", Text(Str::from("a b")));
    check_value("\"a\\\"b\"", Text(Str::from("a\"b")));
}

#[test]
fn test_json_array() {
    check_value("[]", Array(vec![]));
    check_value("[null]", Array(vec![Null]));
    check_value("[1,2]", Array(vec![Int(1), Int(2)]));
    check_value("[1,[2,3]]", Array(vec![Int(1), Array(vec![Int(2), Int(3)])]));
}

#[test]
fn test_json_object() {
    check_value("{}", Object(Vec::new()));
    check_value("{\"a\":42}", Object({
        let mut m = Vec::new();
        m.push((Str::from("a"), Int(42)));
        m
    }));
    check_value("{\"a\":42,\"b\":43}", Object({
        let mut m = Vec::new();
        m.push((Str::from("a"), Int(42)));
        m.push((Str::from("b"), Int(43)));
        m
    }));
}


#[test]
fn test_comments() {
    check_ws("");
    check_ws("\n");
    check_ws("\n#");
    check_ws("#\n");
    check_ws(" ");
    check_ws(" #");
    check_ws(" # c");
    check_ws(" # c\n");
    check_ws(" # c\n ");
    check_ws(" # c\n  ");
    check_ws(" # c\n  ");
    check_ws(" # c\n  //");
    check_ws(" # c\n  //\n");
    check_ws(" # c\n  //\n////");
    check_value("[ ]", Array(vec![]));
    check_value("[ 1]", Array(vec![Int(1)]));
    check_value("[1 ]", Array(vec![Int(1)]));
    check_value("[ 1 ]", Array(vec![Int(1)]));
    check_value("[ 1,2 ]", Array(vec![Int(1), Int(2)]));
    check_value("[ 1 ,2 ]", Array(vec![Int(1), Int(2)]));
    check_value("[ 1, 2 ]", Array(vec![Int(1), Int(2)]));
    check_value("[ 1 , 2 ]", Array(vec![Int(1), Int(2)]));
    check_value("[ 1 , 2,3 ]", Array(vec![Int(1), Int(2), Int(3)]));
    check_value("[ 1 , 2,3]", Array(vec![Int(1), Int(2), Int(3)]));
    check_value("[ 1 , 2, 3]", Array(vec![Int(1), Int(2), Int(3)]));
    check_value("[ 1 , 2 , 3]", Array(vec![Int(1), Int(2), Int(3)]));
    check_value("[1 , 2 , 3 ]", Array(vec![Int(1), Int(2), Int(3)]));
    check_value("[ 1 , 2 , 3 ]", Array(vec![Int(1), Int(2), Int(3)]));
    check_value("[ 1 , #s\n 2 , 3 ]", Array(vec![Int(1), Int(2), Int(3)]));
    check_value("[ 1 , #s\n\n 2 , 3 ]", Array(vec![Int(1), Int(2), Int(3)]));

    let m0 = || Object(Vec::new());
    check_root("{}", m0());
    check_root(" {} ", m0());
    check_root(" { } ", m0());
    check_root(" { \n} ", m0());
    check_root(" {\n } ", m0());
    check_root(" { \n } ", m0());

    let m1 = || {
        let mut m = Vec::new();
        m.push((Str::from("a"), Int(1)));
        Object(m)
    };
    check_root("{\"a\":1}", m1());
    check_root(" {\"a\":1} ", m1());
    check_root(" { \"a\":1} ", m1());
    check_root(" {\"a\" :1} ", m1());
    check_root(" {\"a\": 1} ", m1());
    check_root(" {\"a\":1 } ", m1());
    check_root(" { \"a\" : 1 } ", m1());
    check_root("\n{\n\"a\"\n:\n1\n}\n", m1());
    check_root("\n\n{\n\n\"a\"\n\n:\n\n1\n\n}\n\n", m1());
    check_root("\n{\n\"a\"\n:# cmt \n1\n}\n", m1());

    let m2 = || {
        let mut m = Vec::new();
        m.push((Str::from("a"), Int(1)));
        m.push((Str::from("b"), Int(2)));
        Object(m)
    };
    check_root("{\"a\":1,\"b\":2}", m2());
    check_root("{\"a\":1 ,\"b\":2}", m2());
    check_root("{\"a\":1, \"b\":2}", m2());
    check_root("{\"a\":1 , \"b\":2}", m2());
    check_root("{\"a\":1 ,\n \"b\":2}", m2());
    check_root("{\"a\":1 ,\n\n \"b\":2}", m2());
}

#[test]
fn test_comma_inference() {
    check_value("[1\n2]", Array(vec![Int(1), Int(2)]));
    check_value("[1#a\n2]", Array(vec![Int(1), Int(2)]));
    check_value("[1 , 2 \n, 3]", Array(vec![Int(1), Int(2), Int(3)]));
    check_value("[1 , 2 \n\n\n, 3]", Array(vec![Int(1), Int(2), Int(3)]));
    check_value("[1 , 2 \n# s\n\n, 3]", Array(vec![Int(1), Int(2), Int(3)]));

    let m2 = || {
        let mut m = Vec::new();
        m.push((Str::from("a"), Int(1)));
        m.push((Str::from("b"), Int(2)));
        Object(m)
    };
    check_root("{ \"a\":1\n\"b\":2 }", m2());
    check_root("{ \"a\":1,\n\"b\":2 }", m2());
}

#[test]
fn test_equals_instead_of_colon() {
    check_value("{\"a\" = 42}", Object({
        let mut m = Vec::new();
        m.push((Str::from("a"), Int(42)));
        m
    }));
    check_value("{\"a\" = 42,\"b\":43}", Object({
        let mut m = Vec::new();
        m.push((Str::from("a"), Int(42)));
        m.push((Str::from("b"), Int(43)));
        m
    }));
}

#[test]
fn test_skipping_colon_before_object_values() {
    check_value("{\"a\" = { \"b\":43 }}", Object({
        let mut m1 = Vec::new();
        m1.push((Str::from("b"), Int(43)));
        let mut m2 = Vec::new();
        m2.push((Str::from("a"), Object(m1)));
        m2
    }));
    check_value("{\"a\" { \"b\":43 }}", Object({
        let mut m1 = Vec::new();
        m1.push((Str::from("b"), Int(43)));
        let mut m2 = Vec::new();
        m2.push((Str::from("a"), Object(m1)));
        m2
    }));
}

#[test]
fn test_dropping_braces_on_root_object() {
    check_root("\"a\" = 42", Object({
        let mut m = Vec::new();
        m.push((Str::from("a"), Int(42)));
        m
    }));
    check_root("\"a\" = 42\n", Object({
        let mut m = Vec::new();
        m.push((Str::from("a"), Int(42)));
        m
    }));
    check_root("\"a\" = 42,\"b\":43", Object({
        let mut m = Vec::new();
        m.push((Str::from("a"), Int(42)));
        m.push((Str::from("b"), Int(43)));
        m
    }));
    check_root("\"a\" = 42\n\"b\":43", Object({
        let mut m = Vec::new();
        m.push((Str::from("a"), Int(42)));
        m.push((Str::from("b"), Int(43)));
        m
    }));
}

#[test]
fn test_object_merging() {
    check_root(
        r#"
"a" { "b": 1 }
"a" { "c": 2 }
"#,
        Object({
            let mut m1 = Vec::new();
            m1.push((Str::from("b"), Int(1)));
            m1.push((Str::from("c"), Int(2)));
            let mut m2 = Vec::new();
            m2.push((Str::from("a"), Object(m1)));
            m2
        })
    );

    check_root(
        r#"
"a" { "b": { "c": 1 } }
"a" { "b": { "d": 2 } }
"#,
        Object({
            let mut m1 = Vec::new();
            m1.push((Str::from("c"), Int(1)));
            m1.push((Str::from("d"), Int(2)));
            let mut m2 = Vec::new();
            m2.push((Str::from("b"), Object(m1)));
            let mut m3 = Vec::new();
            m3.push((Str::from("a"), Object(m2)));
            m3
        })
    );

    check_root(
        r#"
"a" { "b": { "c": 1 }, "e": 3 }
"a" { "b": { "d": 2 } }
"#,
        Object({
            let mut m1 = Vec::new();
            m1.push((Str::from("c"), Int(1)));
            m1.push((Str::from("d"), Int(2)));
            let mut m2 = Vec::new();
            m2.push((Str::from("b"), Object(m1)));
            m2.push((Str::from("e"), Int(3)));
            let mut m3 = Vec::new();
            m3.push((Str::from("a"), Object(m2)));
            m3
        })
    );
}
