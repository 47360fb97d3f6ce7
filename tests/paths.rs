use serde_json_lodash::{get, to_path, to_path_x, x_to_path, x_to_path_x, Number, Value};

fn num(n: i64) -> Value {
    Value::Number(Number::from_i64(n))
}

fn s(t: &str) -> Value {
    Value::String(t.to_string())
}

fn arr(items: Vec<Value>) -> Value {
    Value::Array(items)
}

fn obj(entries: Vec<(&str, Value)>) -> Value {
    Value::Object(entries.into_iter().map(|(k, v)| (k.to_string(), v)).collect())
}

fn strs(items: &[&str]) -> Vec<String> {
    items.iter().map(|t| t.to_string()).collect()
}

fn sample() -> Value {
    obj(vec![("a", arr(vec![obj(vec![("b", obj(vec![("c", num(3))]))])]))])
}

#[test]
fn to_path_scenarios() {
    assert_eq!(x_to_path_x("a.b.c"), strs(&["a", "b", "c"]));
    assert_eq!(x_to_path_x("a[0].b.c"), strs(&["a", "0", "b", "c"]));
    assert_eq!(x_to_path_x(""), strs(&[]));
}

#[test]
fn to_path_table() {
    assert_eq!(to_path(Value::Null), arr(vec![]));
    assert_eq!(to_path(Value::Bool(false)), arr(vec![s("false")]));
    assert_eq!(to_path(num(0)), arr(vec![s("0")]));
    assert_eq!(to_path(s("")), arr(vec![]));
    assert_eq!(to_path(s("..")), arr(vec![s(""), s(""), s("")]));
    assert_eq!(to_path(s("[\"\"]")), arr(vec![s("")]));
    assert_eq!(to_path(s(".a[b]")), arr(vec![s(""), s("a"), s("b")]));
    assert_eq!(to_path(s("a['b']")), arr(vec![s("a"), s("b")]));
    assert_eq!(to_path(s("a[\"b\"]")), arr(vec![s("a"), s("b")]));
    assert_eq!(to_path(s("a['\"b\"']")), arr(vec![s("a"), s("\"b\"")]));
    assert_eq!(to_path(s("a[\"'b'\"]")), arr(vec![s("a"), s("'b'")]));
    assert_eq!(to_path(s("a[[b]c]")), arr(vec![s("a"), s("b"), s("c")]));
    assert_eq!(to_path(s("a[b[c]]")), arr(vec![s("a"), s("b"), s("c")]));
    assert_eq!(to_path(s("a[b")), arr(vec![s("a"), s("b")]));
    assert_eq!(to_path(s("a[[b")), arr(vec![s("a"), s("b")]));
    assert_eq!(to_path(s("a['b")), arr(vec![s("a"), s("'b")]));
    assert_eq!(to_path(s("a[\"b")), arr(vec![s("a"), s("\"b")]));
    assert_eq!(to_path(arr(vec![])), arr(vec![]));
    assert_eq!(to_path(arr(vec![s("x"), num(1), Value::Null])), arr(vec![s("x"), s("1"), s("")]));
    assert_eq!(to_path(obj(vec![])), arr(vec![s("[object Object]")]));
    assert_eq!(x_to_path("a.b"), arr(vec![s("a"), s("b")]));
    assert_eq!(to_path_x(s("a[0]")), strs(&["a", "0"]));
}

#[test]
fn get_scenarios() {
    assert_eq!(get(sample(), s("a[0].b.c"), Value::Null), num(3));
    assert_eq!(get(sample(), arr(vec![s("a"), s("0"), s("b"), s("c")]), Value::Null), num(3));
    assert_eq!(get(sample(), s("a.b.c"), s("default")), s("default"));
    assert_eq!(get(s("中文"), s("1"), Value::Null), s("文"));
    assert_eq!(get(arr(vec![num(1), s("abcd")]), s("1[2]"), Value::Null), s("c"));
}

#[test]
fn get_default_at_dead_ends() {
    let d = s("d");
    assert_eq!(get(obj(vec![("a", Value::Null)]), s("a.b"), d.clone_value()), d.clone_value());
    assert_eq!(get(obj(vec![("a", Value::Bool(true))]), s("a.b"), s("d")), s("d"));
    assert_eq!(get(obj(vec![("a", num(1))]), s("a.0"), s("d")), s("d"));
    assert_eq!(get(obj(vec![("a", num(1))]), s("b"), s("d")), s("d"));
    assert_eq!(get(arr(vec![num(1)]), s("5"), s("d")), s("d"));
    assert_eq!(get(arr(vec![num(1)]), s("x"), s("d")), s("d"));
    assert_eq!(get(sample(), s(""), s("d")), s("d"));
    assert_eq!(get(sample(), Value::Null, s("d")), s("d"));
}

trait CloneValue {
    fn clone_value(&self) -> Value;
}

impl CloneValue for Value {
    fn clone_value(&self) -> Value {
        serde_json_lodash::copy_value(self)
    }
}

#[test]
fn set_scenarios() {
    let object = serde_json_lodash::object::set(sample(), s("a[0].b.c"), num(4));
    assert_eq!(get(object.clone_value(), s("a[0].b.c"), Value::Null), num(4));
    let object = serde_json_lodash::object::set(object, arr(vec![s("x"), s("0"), s("y"), s("z")]), num(5));
    assert_eq!(get(object, s("x[0].y.z"), Value::Null), num(5));
    assert_eq!(
        serde_json_lodash::set(obj(vec![]), s("1[1].a"), num(5)),
        obj(vec![("1", arr(vec![Value::Null, obj(vec![("a", num(5))])]))])
    );
}

#[test]
fn set_edge_cases() {
    assert_eq!(serde_json_lodash::object::set(num(5), Value::Null, num(1)), num(5));
    assert_eq!(serde_json_lodash::object::set(obj(vec![]), s("a"), num(1)), obj(vec![("a", num(1))]));
    assert_eq!(serde_json_lodash::object::set(obj(vec![]), s("a[0]"), num(1)), obj(vec![("a", arr(vec![num(1)]))]));
    assert_eq!(serde_json_lodash::object::set(num(5), s("a.1"), num(1)), obj(vec![("a", arr(vec![Value::Null, num(1)]))]));
    assert_eq!(serde_json_lodash::object::set(obj(vec![]), s("a.b"), num(1)), obj(vec![("a", obj(vec![("b", num(1))]))]));
    assert_eq!(serde_json_lodash::object::set(arr(vec![num(1)]), s("2"), num(9)), arr(vec![num(1), Value::Null, num(9)]));
    assert_eq!(serde_json_lodash::object::set(arr(vec![num(1)]), s("0"), num(9)), arr(vec![num(9)]));
    assert_eq!(serde_json_lodash::object::set(arr(vec![num(1)]), s("a"), num(9)), arr(vec![num(1)]));
    assert_eq!(serde_json_lodash::object::set(num(7), s("2"), num(9)), arr(vec![Value::Null, Value::Null, num(9)]));
    assert_eq!(serde_json_lodash::object::set(s("x"), s("k.j"), num(9)), obj(vec![("k", obj(vec![("j", num(9))]))]));
    assert_eq!(
        serde_json_lodash::object::set(obj(vec![("a", num(1)), ("b", num(2))]), s("a"), num(3)),
        obj(vec![("a", num(3)), ("b", num(2))])
    );
}

#[test]
fn set_then_get_returns_value() {
    let cases: Vec<(Value, Value)> = vec![
        (obj(vec![]), s("a.b.c")),
        (obj(vec![]), s("a[0].b")),
        (sample(), s("a[0].b.c")),
        (sample(), s("a[3]")),
        (num(1), s("x.y")),
        (arr(vec![]), s("4.k")),
        (obj(vec![("a", s("text"))]), s("a.b")),
    ];
    for (object, path) in cases {
        let p2 = path.clone_value();
        let updated = serde_json_lodash::object::set(object, path, s("v"));
        assert_eq!(get(updated, p2, Value::Null), s("v"));
    }
}
