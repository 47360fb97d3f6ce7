use serde_json_lodash::{
    range, range_right, range_right_x, range_x, stub_array, stub_false, stub_object, stub_string,
    stub_true, times, unique_id, unique_id_x, x_range, x_range_right, x_range_right_x, x_range_x,
    x_times, x_unique_id, x_unique_id_x, IdCounter, Number, Value,
};

fn num(n: i64) -> Value {
    Value::Number(Number::from_i64(n))
}

fn s(t: &str) -> Value {
    Value::String(t.to_string())
}

fn arr(items: Vec<Value>) -> Value {
    Value::Array(items)
}

fn obj(entries: Vec<(&str, Value)>) -> Value {
    Value::Object(entries.into_iter().map(|(k, v)| (k.to_string(), v)).collect())
}

#[test]
fn range_table() {
    assert_eq!(x_range_x(0, 4, 1), vec![0, 1, 2, 3]);
    assert_eq!(x_range_x(0, -4, -1), vec![0, -1, -2, -3]);
    assert_eq!(x_range_x(1, 5, 1), vec![1, 2, 3, 4]);
    assert_eq!(x_range_x(0, 20, 5), vec![0, 5, 10, 15]);
    assert_eq!(x_range_x(1, 4, 0), vec![1, 1, 1]);
    assert_eq!(x_range_x(0, 0, 1), Vec::<isize>::new());
    assert_eq!(x_range_x(5, 1, 1), Vec::<isize>::new());
    assert_eq!(x_range_x(isize::MAX - 1, isize::MAX, 10), vec![isize::MAX - 1]);
    assert_eq!(x_range(0, 3, 1), arr(vec![num(0), num(1), num(2)]));
    assert_eq!(range_x(s("1"), arr(vec![num(3)]), 1), vec![1, 2]);
    assert_eq!(range(Value::Null, Value::Null, 1), arr(vec![]));
}

#[test]
fn range_right_table() {
    assert_eq!(x_range_right_x(0, 4, 1), vec![3, 2, 1, 0]);
    assert_eq!(x_range_right_x(0, 20, 5), vec![15, 10, 5, 0]);
    assert_eq!(x_range_right(1, 4, 0), arr(vec![num(1), num(1), num(1)]));
    assert_eq!(range_right_x(num(0), num(-3), -1), vec![-2, -1, 0]);
    assert_eq!(range_right(Value::Null, Value::Null, 2), arr(vec![]));
    assert_eq!(range_right(num(0), num(1), 2), arr(vec![num(0)]));
}

#[test]
fn stubs() {
    assert_eq!(stub_array(), arr(vec![]));
    assert_eq!(stub_false(), Value::Bool(false));
    assert_eq!(stub_true(), Value::Bool(true));
    assert_eq!(stub_object(), obj(vec![]));
    assert_eq!(stub_string(), s(""));
}

#[test]
fn times_table() {
    let index = |i: usize| Value::Number(Number::PosInt(i as u64));
    assert_eq!(x_times(0, index), arr(vec![]));
    assert_eq!(x_times(2, index), arr(vec![num(0), num(1)]));
    assert_eq!(times(Value::Null, index), arr(vec![]));
    assert_eq!(times(Value::Bool(false), index), arr(vec![]));
    assert_eq!(times(s(""), index), arr(vec![]));
    assert_eq!(times(s("2"), index), arr(vec![num(0), num(1)]));
    assert_eq!(times(s("a"), index), arr(vec![]));
    assert_eq!(times(arr(vec![num(2)]), index), arr(vec![num(0), num(1)]));
    assert_eq!(times(arr(vec![num(1), num(2)]), index), arr(vec![]));
    assert_eq!(times(obj(vec![("a", num(1))]), index), arr(vec![]));
    assert_eq!(times(num(-3), index), arr(vec![]));
}

#[test]
fn unique_ids_count_up() {
    let mut counter = IdCounter::new();
    assert_eq!(x_unique_id_x(&mut counter, "contact_"), "contact_1");
    assert_eq!(unique_id_x(&mut counter, ""), "2");
    assert_eq!(x_unique_id(&mut counter, "a"), s("a3"));
    assert_eq!(unique_id(&mut counter, "id"), s("id4"));
    assert_eq!(counter.count, 4);
    let mut late = IdCounter { count: u64::MAX - 1 };
    assert_eq!(unique_id_x(&mut late, "n"), "n18446744073709551615");
}

#[test]
fn infinity_is_written_as_null() {
    assert_eq!(serde_json_lodash::coerce::value_infinity(), Value::Null);
}
