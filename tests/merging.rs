use serde_json_lodash::{copy_value, merge, Number, Value};

fn num(n: i64) -> Value {
    Value::Number(Number::from_i64(n))
}

fn s(t: &str) -> Value {
    Value::String(t.to_string())
}

fn arr(items: Vec<Value>) -> Value {
    Value::Array(items)
}

fn obj(entries: Vec<(&str, Value)>) -> Value {
    Value::Object(entries.into_iter().map(|(k, v)| (k.to_string(), v)).collect())
}

#[test]
fn merge_positional_arrays() {
    let object = obj(vec![("a", arr(vec![obj(vec![("b", num(2))]), obj(vec![("d", num(4))])]))]);
    let other = obj(vec![("a", arr(vec![obj(vec![("c", num(3))]), obj(vec![("e", num(5))])]))]);
    assert_eq!(
        merge(object, other),
        obj(vec![(
            "a",
            arr(vec![obj(vec![("b", num(2)), ("c", num(3))]), obj(vec![("d", num(4)), ("e", num(5))])])
        )])
    );
}

#[test]
fn merge_objects() {
    assert_eq!(
        merge(obj(vec![("a", num(1))]), obj(vec![("b", num(2))])),
        obj(vec![("a", num(1)), ("b", num(2))])
    );
    let ab = merge(obj(vec![("a", num(1))]), obj(vec![("b", num(2))]));
    assert_eq!(merge(ab, obj(vec![("c", num(3))])), obj(vec![("a", num(1)), ("b", num(2)), ("c", num(3))]));
    assert_eq!(merge(obj(vec![("a", Value::Null)]), obj(vec![("a", Value::Null)])), obj(vec![("a", Value::Null)]));
    assert_eq!(merge(obj(vec![("a", Value::Null)]), obj(vec![("a", num(1))])), obj(vec![("a", num(1))]));
    assert_eq!(merge(obj(vec![("a", num(1))]), obj(vec![("a", Value::Null)])), obj(vec![("a", Value::Null)]));
    assert_eq!(merge(obj(vec![("a", arr(vec![num(1)]))]), obj(vec![("a", s("x"))])), obj(vec![("a", s("x"))]));
    assert_eq!(
        merge(obj(vec![("a", obj(vec![("x", num(1))]))]), obj(vec![("a", obj(vec![("y", num(2))]))])),
        obj(vec![("a", obj(vec![("x", num(1)), ("y", num(2))]))])
    );
}

#[test]
fn merge_arrays() {
    assert_eq!(merge(arr(vec![num(1), num(2), num(3)]), arr(vec![num(4)])), arr(vec![num(4), num(2), num(3)]));
    assert_eq!(merge(arr(vec![num(1)]), arr(vec![num(8), num(9)])), arr(vec![num(8), num(9)]));
    assert_eq!(merge(arr(vec![num(1)]), arr(vec![])), arr(vec![num(1)]));
    assert_eq!(
        merge(arr(vec![arr(vec![num(1), num(2)])]), arr(vec![arr(vec![num(3)])])),
        arr(vec![arr(vec![num(3), num(2)])])
    );
}

#[test]
fn merge_mismatched_kinds_keeps_object() {
    assert_eq!(merge(obj(vec![("a", num(1))]), arr(vec![num(2)])), obj(vec![("a", num(1))]));
    assert_eq!(merge(arr(vec![num(2)]), obj(vec![("a", num(1))])), arr(vec![num(2)]));
    assert_eq!(merge(num(1), num(2)), num(1));
}

#[test]
fn merge_empty_source_and_empty_target() {
    let x = obj(vec![("a", num(1)), ("b", arr(vec![s("q")]))]);
    assert_eq!(merge(copy_value(&x), obj(vec![])), x);
    let y = arr(vec![num(1), obj(vec![("k", Value::Bool(true))])]);
    assert_eq!(merge(arr(vec![]), copy_value(&y)), y);
}
