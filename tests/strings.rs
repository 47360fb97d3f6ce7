use serde_json_lodash::{
    capitalize, capitalize_x, to_lower, to_lower_x, x_capitalize, x_capitalize_x, x_to_lower,
    x_to_lower_x, Number, Value,
};

fn num(n: i64) -> Value {
    Value::Number(Number::from_i64(n))
}

fn s(t: &str) -> Value {
    Value::String(t.to_string())
}

fn arr(items: Vec<Value>) -> Value {
    Value::Array(items)
}

fn obj(entries: Vec<(&str, Value)>) -> Value {
    Value::Object(entries.into_iter().map(|(k, v)| (k.to_string(), v)).collect())
}

#[test]
fn capitalize_table() {
    assert_eq!(x_capitalize_x("FRED"), "Fred");
    assert_eq!(x_capitalize_x("fred"), "Fred");
    assert_eq!(x_capitalize_x(""), "");
    assert_eq!(x_capitalize_x("é"), "É");
    assert_eq!(x_capitalize(" a"), s(" a"));
    assert_eq!(capitalize(s("FRED")), s("Fred"));
    assert_eq!(capitalize(Value::Null), s(""));
    assert_eq!(capitalize(Value::Bool(false)), s("False"));
    assert_eq!(capitalize(num(0)), s("0"));
    assert_eq!(capitalize(s("")), s(""));
    assert_eq!(capitalize(arr(vec![])), s(""));
    assert_eq!(capitalize(arr(vec![Value::Null, s("A"), obj(vec![])])), s("Null,a,[object object]"));
    assert_eq!(capitalize(arr(vec![s("aB"), Value::Null])), s("Ab,"));
    assert_eq!(capitalize_x(obj(vec![])), "[object object]");
}

#[test]
fn to_lower_table() {
    assert_eq!(x_to_lower_x("--Foo-Bar--"), "--foo-bar--");
    assert_eq!(x_to_lower_x("fooBar"), "foobar");
    assert_eq!(x_to_lower("__FOO_BAR__"), s("__foo_bar__"));
    assert_eq!(to_lower(Value::Null), s(""));
    assert_eq!(to_lower(Value::Bool(false)), s("false"));
    assert_eq!(to_lower(num(0)), s("0"));
    assert_eq!(to_lower(s("")), s(""));
    assert_eq!(to_lower(arr(vec![])), s(""));
    assert_eq!(to_lower(arr(vec![Value::Null, s("A"), obj(vec![])])), s("null,a,[object object]"));
    assert_eq!(to_lower_x(obj(vec![])), "[object object]");
}
