use serde_json_lodash::{
    bool_to_number, number_nan, string_to_option_number, to_safe_integer, to_safe_integer_x,
    to_string, to_string_x, value_nan, value_null_to_number, value_to_option_number,
    value_undefined, vec_value_to_option_number, x_to_string, Number, Value,
};

fn num(n: i64) -> Value {
    Value::Number(Number::from_i64(n))
}

fn s(t: &str) -> Value {
    Value::String(t.to_string())
}

fn arr(items: Vec<Value>) -> Value {
    Value::Array(items)
}

fn obj(entries: Vec<(&str, Value)>) -> Value {
    Value::Object(entries.into_iter().map(|(k, v)| (k.to_string(), v)).collect())
}

#[test]
fn to_string_of_integer() {
    assert_eq!(to_string_x(num(5)), "5");
    assert_eq!(to_string_x(num(-42)), "-42");
    assert_eq!(to_string_x(Value::Number(Number::PosInt(u64::MAX))), "18446744073709551615");
    assert_eq!(to_string_x(num(i64::MIN)), "-9223372036854775808");
}

#[test]
fn to_string_table() {
    assert_eq!(to_string_x(Value::Null), "");
    assert_eq!(to_string(Value::Bool(false)), s("false"));
    assert_eq!(to_string(Value::Bool(true)), s("true"));
    assert_eq!(to_string(num(0)), s("0"));
    assert_eq!(to_string(s("")), s(""));
    assert_eq!(to_string(arr(vec![])), s(""));
    assert_eq!(to_string_x(arr(vec![num(1), num(2), num(3)])), "1,2,3");
    assert_eq!(to_string(arr(vec![Value::Null, s("A"), obj(vec![])])), s("null,A,[object Object]"));
    assert_eq!(to_string(obj(vec![])), s("[object Object]"));
    assert_eq!(to_string_x(arr(vec![arr(vec![]), arr(vec![num(1), arr(vec![num(2)])])])), ",1,2");
}

#[test]
fn x_to_string_wraps() {
    assert_eq!(x_to_string("abc"), s("abc"));
}

#[test]
fn to_safe_integer_table() {
    assert_eq!(to_safe_integer_x(s("3.2")), 3);
    assert_eq!(to_safe_integer(s("3.2")), num(3));
    assert_eq!(to_safe_integer_x(Value::Null), 0);
    assert_eq!(to_safe_integer_x(Value::Bool(true)), 1);
    assert_eq!(to_safe_integer_x(Value::Bool(false)), 0);
    assert_eq!(to_safe_integer_x(num(-17)), -17);
    assert_eq!(to_safe_integer_x(s("-7.9")), -7);
    assert_eq!(to_safe_integer_x(s(".5")), 0);
    assert_eq!(to_safe_integer_x(s("12.")), 12);
    assert_eq!(to_safe_integer_x(s("+8")), 8);
    assert_eq!(to_safe_integer_x(s("abc")), 0);
    assert_eq!(to_safe_integer_x(s("1.2.3")), 0);
    assert_eq!(to_safe_integer_x(arr(vec![num(1), num(2)])), 0);
    assert_eq!(to_safe_integer_x(arr(vec![])), 0);
    assert_eq!(to_safe_integer_x(obj(vec![("a", num(1))])), 0);
}

#[test]
fn to_safe_integer_of_exponent_text() {
    assert_eq!(to_safe_integer_x(s("1e3")), 1000);
    assert_eq!(to_safe_integer_x(s("1.5E+2")), 150);
    assert_eq!(to_safe_integer_x(s("12e-1")), 1);
    assert_eq!(to_safe_integer_x(s("-2.5e-10")), 0);
    assert_eq!(to_safe_integer_x(s(".25e2")), 25);
    assert_eq!(to_safe_integer_x(s("3.e1")), 30);
    assert_eq!(to_safe_integer_x(s("1e400")), isize::MAX);
    assert_eq!(to_safe_integer_x(s("-1e400")), isize::MIN);
    assert_eq!(to_safe_integer_x(s("0e999999999999999999999999")), 0);
    assert_eq!(to_safe_integer_x(s("1e-999999999999999999999999")), 0);
    assert_eq!(to_safe_integer_x(s("1e")), 0);
    assert_eq!(to_safe_integer_x(s("e5")), 0);
    assert_eq!(to_safe_integer_x(s("1e+")), 0);
    assert_eq!(to_safe_integer(s("2E2")), num(200));
}

#[test]
fn to_safe_integer_of_infinity_text() {
    assert_eq!(to_safe_integer_x(s("inf")), isize::MAX);
    assert_eq!(to_safe_integer_x(s("+Infinity")), isize::MAX);
    assert_eq!(to_safe_integer_x(s("-INF")), isize::MIN);
    assert_eq!(to_safe_integer_x(s("nan")), 0);
    assert_eq!(to_safe_integer_x(s("infinit")), 0);
}

#[test]
fn to_safe_integer_clamps() {
    assert_eq!(to_safe_integer_x(Value::Number(Number::PosInt(u64::MAX))), isize::MAX);
    assert_eq!(to_safe_integer_x(s("99999999999999999999")), isize::MAX);
    assert_eq!(to_safe_integer_x(s("-99999999999999999999.5")), isize::MIN);
}

#[test]
fn to_safe_integer_single_element_unwrap() {
    let inner = arr(vec![s("5")]);
    let outer = arr(vec![arr(vec![s("5")])]);
    assert_eq!(to_safe_integer_x(outer), to_safe_integer_x(inner));
    assert_eq!(to_safe_integer_x(arr(vec![arr(vec![arr(vec![num(9)])])])), 9);
}

#[test]
fn number_coercions() {
    assert_eq!(value_to_option_number(s("12")), Some(Number::PosInt(12)));
    assert_eq!(value_to_option_number(s("-3")), Some(Number::NegInt(-3)));
    assert_eq!(value_to_option_number(s("")), Some(Number::PosInt(0)));
    assert_eq!(value_to_option_number(s("1.5")), None);
    assert_eq!(value_to_option_number(s("x")), None);
    assert_eq!(value_to_option_number(arr(vec![])), Some(Number::PosInt(0)));
    assert_eq!(value_to_option_number(arr(vec![num(4)])), Some(Number::PosInt(4)));
    assert_eq!(value_to_option_number(arr(vec![num(4), num(5)])), None);
    assert_eq!(value_to_option_number(obj(vec![])), None);
    assert_eq!(value_to_option_number(Value::Bool(true)), Some(Number::PosInt(1)));
    assert_eq!(value_to_option_number(Value::Null), Some(Number::PosInt(0)));
    assert_eq!(string_to_option_number("+5".to_string()), Some(Number::PosInt(5)));
    assert_eq!(string_to_option_number("18446744073709551616".to_string()), None);
    assert_eq!(vec_value_to_option_number(vec![s("7")]), Some(Number::PosInt(7)));
    assert_eq!(vec_value_to_option_number(vec![Value::Null, Value::Null]), None);
}

#[test]
fn number_constants() {
    assert_eq!(bool_to_number(true), Number::PosInt(1));
    assert_eq!(bool_to_number(false), Number::PosInt(0));
    assert_eq!(value_null_to_number(), Number::PosInt(0));
    assert_eq!(number_nan(), Number::PosInt(0));
    assert_eq!(value_nan(), Value::Null);
    assert_eq!(value_undefined(), Value::Null);
}

#[test]
fn integer_text_reads_back() {
    for n in [0i64, 5, -42, i64::MIN, i64::MAX] {
        let text = to_string_x(num(n));
        assert_eq!(string_to_option_number(text), Some(Number::from_i64(n)));
    }
    let big = to_string_x(Value::Number(Number::PosInt(u64::MAX)));
    assert_eq!(string_to_option_number(big), Some(Number::PosInt(u64::MAX)));
}
