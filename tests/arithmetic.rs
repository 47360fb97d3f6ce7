use serde_json_lodash::{add, ceil, x_add_x, x_ceil, x_ceil_x, Number, Value};

fn num(n: i64) -> Value {
    Value::Number(Number::from_i64(n))
}

fn s(t: &str) -> Value {
    Value::String(t.to_string())
}

fn arr(items: Vec<Value>) -> Value {
    Value::Array(items)
}

fn obj(entries: Vec<(&str, Value)>) -> Value {
    Value::Object(entries.into_iter().map(|(k, v)| (k.to_string(), v)).collect())
}

#[test]
fn add_scenarios() {
    assert_eq!(add(Value::Null, Value::Null), num(0));
    assert_eq!(add(Value::Null, s("_a")), s("null_a"));
    assert_eq!(add(num(3), arr(vec![])), num(3));
    assert_eq!(add(obj(vec![]), num(1)), Value::Null);
}

#[test]
fn add_table() {
    assert_eq!(add(num(6), num(4)), num(10));
    assert_eq!(add(Value::Null, Value::Bool(true)), num(1));
    assert_eq!(add(Value::Null, num(1)), num(1));
    assert_eq!(add(Value::Null, arr(vec![])), num(0));
    assert_eq!(add(Value::Null, arr(vec![num(2)])), num(2));
    assert_eq!(add(Value::Null, arr(vec![s("a")])), Value::Null);
    assert_eq!(add(Value::Bool(true), Value::Bool(false)), num(1));
    assert_eq!(add(Value::Bool(true), Value::Bool(true)), num(2));
    assert_eq!(add(Value::Bool(true), Value::Null), num(1));
    assert_eq!(add(Value::Bool(false), s("_b")), s("false_b"));
    assert_eq!(add(Value::Bool(true), arr(vec![])), num(1));
    assert_eq!(add(Value::Bool(true), arr(vec![num(2)])), num(3));
    assert_eq!(add(Value::Bool(true), arr(vec![s("a")])), Value::Null);
    assert_eq!(add(num(1), Value::Bool(true)), num(2));
    assert_eq!(add(num(2), s("3")), s("23"));
    assert_eq!(add(num(4), arr(vec![num(1)])), num(5));
    assert_eq!(add(num(5), arr(vec![s("")])), num(5));
    assert_eq!(add(num(6), arr(vec![s("a")])), Value::Null);
    assert_eq!(add(num(6), arr(vec![num(1), num(2)])), Value::Null);
    assert_eq!(add(s("a"), s("b")), s("ab"));
    assert_eq!(add(s("a"), Value::Null), s("a"));
    assert_eq!(add(s("a"), arr(vec![num(1), Value::Null])), s("a1,null"));
    assert_eq!(add(arr(vec![num(1)]), arr(vec![num(2)])), num(3));
    assert_eq!(add(arr(vec![num(1), num(2)]), s("x")), s("1,2x"));
    assert_eq!(add(obj(vec![]), s("a")), s("[object Object]a"));
    assert_eq!(add(num(1), obj(vec![])), Value::Null);
    assert_eq!(add(num(-5), num(3)), num(-2));
    assert_eq!(add(num(-5), num(5)), num(0));
    assert_eq!(add(num(-1), num(2)), Value::Number(Number::PosInt(1)));
    assert_eq!(add(num(-3), num(1)), Value::Number(Number::NegInt(-2)));
}

#[test]
fn add_out_of_range_is_nan() {
    assert_eq!(add(Value::Number(Number::PosInt(u64::MAX)), num(1)), Value::Null);
    assert_eq!(add(num(i64::MIN), num(-1)), Value::Null);
    assert_eq!(
        add(Value::Number(Number::PosInt(u64::MAX)), num(-1)),
        Value::Number(Number::PosInt(u64::MAX - 1))
    );
}

#[test]
fn x_add_x_sums() {
    assert_eq!(x_add_x(Number::PosInt(6), Number::PosInt(4)), Number::PosInt(10));
    assert_eq!(x_add_x(Number::NegInt(-6), Number::PosInt(4)), Number::NegInt(-2));
}

#[test]
fn ceil_table() {
    assert_eq!(ceil(Value::Null, 0), num(0));
    assert_eq!(ceil(Value::Bool(false), 0), num(0));
    assert_eq!(ceil(Value::Bool(true), 0), num(1));
    assert_eq!(ceil(num(0), 0), num(0));
    assert_eq!(ceil(s(""), 0), num(0));
    assert_eq!(ceil(s("a"), 0), Value::Null);
    assert_eq!(ceil(arr(vec![]), 0), num(0));
    assert_eq!(ceil(arr(vec![s("a")]), 0), Value::Null);
    assert_eq!(ceil(obj(vec![]), 0), Value::Null);
    assert_eq!(ceil(obj(vec![("a", num(1))]), 0), Value::Null);
}

#[test]
fn ceil_negative_precision() {
    assert_eq!(x_ceil_x(Number::PosInt(4060), -2), Number::PosInt(4100));
    assert_eq!(x_ceil_x(Number::PosInt(4000), -2), Number::PosInt(4000));
    assert_eq!(x_ceil_x(Number::NegInt(-4060), -2), Number::NegInt(-4000));
    assert_eq!(x_ceil_x(Number::NegInt(-40), -2), Number::PosInt(0));
    assert_eq!(x_ceil_x(Number::PosInt(5), -20), Number::PosInt(u64::MAX));
    assert_eq!(x_ceil_x(Number::NegInt(-5), -30), Number::PosInt(0));
    assert_eq!(x_ceil_x(Number::PosInt(7), 2), Number::PosInt(7));
    assert_eq!(x_ceil(Number::PosInt(61), -1), num(70));
    assert_eq!(ceil(s("61"), -1), num(70));
}
