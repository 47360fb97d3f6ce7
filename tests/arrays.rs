use serde_json_lodash::{
    chunk, compact, difference, drop, drop_right, fill, find_index, find_last_index, flatten,
    flatten_deep, flatten_depth, from_pairs, head, index_of, initial, intersection, intersection_x,
    join, join_x, last, last_index_of, nth, pull, pull_all, pull_all_by, pull_all_with, pull_at,
    x_flatten_deep_x, x_flatten_depth_x, x_flatten_x, copy_value, Number, Value,
};

fn num(n: i64) -> Value {
    Value::Number(Number::from_i64(n))
}

fn s(t: &str) -> Value {
    Value::String(t.to_string())
}

fn arr(items: Vec<Value>) -> Value {
    Value::Array(items)
}

fn obj(entries: Vec<(&str, Value)>) -> Value {
    Value::Object(entries.into_iter().map(|(k, v)| (k.to_string(), v)).collect())
}

fn mixed() -> Value {
    arr(vec![Value::Null, Value::Bool(false), num(0), s(""), s("ab"), arr(vec![]), obj(vec![])])
}

#[test]
fn chunk_scenarios() {
    let abcd = arr(vec![s("a"), s("b"), s("c"), s("d")]);
    assert_eq!(chunk(copy_value(&abcd), 2), arr(vec![arr(vec![s("a"), s("b")]), arr(vec![s("c"), s("d")])]));
    assert_eq!(chunk(copy_value(&abcd), 3), arr(vec![arr(vec![s("a"), s("b"), s("c")]), arr(vec![s("d")])]));
    assert_eq!(chunk(abcd, 0), arr(vec![]));
}

#[test]
fn chunk_table() {
    assert_eq!(chunk(arr(vec![num(1), num(2), num(3)]), 0), arr(vec![]));
    assert_eq!(chunk(Value::Bool(true), 1), arr(vec![]));
    assert_eq!(chunk(num(1), 1), arr(vec![]));
    assert_eq!(chunk(s("abc"), 1), arr(vec![s("a"), s("b"), s("c")]));
    assert_eq!(chunk(s("abc"), 2), arr(vec![arr(vec![s("a"), s("b")]), arr(vec![s("c")])]));
    assert_eq!(chunk(s("a世界"), 2), arr(vec![arr(vec![s("a"), s("世")]), arr(vec![s("界")])]));
    assert_eq!(
        chunk(arr(vec![Value::Bool(true), num(1), s("a"), obj(vec![]), arr(vec![])]), 2),
        arr(vec![
            arr(vec![Value::Bool(true), num(1)]),
            arr(vec![s("a"), obj(vec![])]),
            arr(vec![arr(vec![])])
        ])
    );
    assert_eq!(chunk(obj(vec![]), 1), arr(vec![]));
    assert_eq!(chunk(arr(vec![num(1)]), usize::MAX), arr(vec![arr(vec![num(1)])]));
}

#[test]
fn compact_table() {
    assert_eq!(
        compact(arr(vec![num(0), num(1), Value::Bool(false), num(2), s(""), num(3)])),
        arr(vec![num(1), num(2), num(3)])
    );
    assert_eq!(compact(Value::Null), arr(vec![]));
    assert_eq!(compact(Value::Bool(false)), arr(vec![]));
    assert_eq!(compact(s("ab")), arr(vec![s("a"), s("b")]));
    assert_eq!(compact(obj(vec![("a", num(1))])), arr(vec![]));
    assert_eq!(
        compact(arr(vec![arr(vec![s("ab")]), obj(vec![("a", num(1))])])),
        arr(vec![arr(vec![s("ab")]), obj(vec![("a", num(1))])])
    );
    assert_eq!(
        compact(arr(vec![Value::Number(Number::PosInt(u64::MAX)), num(-1), num(0)])),
        arr(vec![Value::Number(Number::PosInt(u64::MAX)), num(-1)])
    );
}

#[test]
fn concat_table() {
    assert_eq!(
        serde_json_lodash::concat(serde_json_lodash::array::concat(serde_json_lodash::array::concat(arr(vec![num(1)]), num(2)), arr(vec![num(3)])), arr(vec![arr(vec![num(4)])])),
        arr(vec![num(1), num(2), num(3), arr(vec![num(4)])])
    );
    assert_eq!(serde_json_lodash::array::concat(Value::Null, arr(vec![])), arr(vec![Value::Null]));
    assert_eq!(serde_json_lodash::array::concat(Value::Null, Value::Null), arr(vec![Value::Null, Value::Null]));
    assert_eq!(serde_json_lodash::array::concat(arr(vec![]), arr(vec![])), arr(vec![]));
}

#[test]
fn difference_table() {
    assert_eq!(difference(arr(vec![num(2), num(1)]), arr(vec![num(2), num(3)])), arr(vec![num(1)]));
    assert_eq!(difference(Value::Null, arr(vec![])), arr(vec![]));
    assert_eq!(difference(s(""), arr(vec![])), arr(vec![]));
    assert_eq!(difference(arr(vec![num(1), Value::Null]), arr(vec![])), arr(vec![num(1), Value::Null]));
    assert_eq!(difference(arr(vec![num(1)]), num(1)), arr(vec![num(1)]));
    assert_eq!(difference(mixed(), mixed()), arr(vec![arr(vec![]), obj(vec![])]));
}

#[test]
fn drop_table() {
    let v = || arr(vec![num(1), num(2), num(3)]);
    assert_eq!(drop(v(), 1), arr(vec![num(2), num(3)]));
    assert_eq!(drop(v(), 2), arr(vec![num(3)]));
    assert_eq!(drop(v(), 5), arr(vec![]));
    assert_eq!(drop(v(), 0), v());
    assert_eq!(drop(Value::Null, 0), arr(vec![]));
    assert_eq!(drop(s(""), 1), arr(vec![]));
    assert_eq!(drop_right(v(), 1), arr(vec![num(1), num(2)]));
    assert_eq!(drop_right(v(), 2), arr(vec![num(1)]));
    assert_eq!(drop_right(v(), 5), arr(vec![]));
    assert_eq!(drop_right(v(), 0), v());
    assert_eq!(drop_right(obj(vec![]), 1), arr(vec![]));
}

#[test]
fn fill_table() {
    assert_eq!(
        fill(arr(vec![Value::Null, Value::Null, Value::Null]), num(2), 0, 3),
        arr(vec![num(2), num(2), num(2)])
    );
    assert_eq!(
        fill(arr(vec![num(4), num(6), num(8), num(10)]), s("*"), 1, 3),
        arr(vec![num(4), s("*"), s("*"), num(10)])
    );
    assert_eq!(fill(Value::Null, num(1), 0, 1), arr(vec![]));
    assert_eq!(fill(arr(vec![num(1)]), Value::Null, 0, 1), arr(vec![Value::Null]));
    assert_eq!(fill(arr(vec![num(1)]), s(""), 2, 1), arr(vec![num(1)]));
    assert_eq!(fill(arr(vec![num(1)]), s(""), 0, 2), arr(vec![s("")]));
}

#[test]
fn find_index_table() {
    let users = arr(vec![
        obj(vec![("user", s("barney")), ("active", Value::Bool(false))]),
        obj(vec![("user", s("fred")), ("active", Value::Bool(false))]),
        obj(vec![("user", s("pebbles")), ("active", Value::Bool(true))]),
    ]);
    let is_fred = |v: &Value| match v {
        Value::Object(e) => e.iter().any(|(k, x)| k == "user" && *x == s("fred")),
        _ => false,
    };
    assert_eq!(find_index(copy_value(&users), is_fred, 0), 1);
    assert_eq!(find_index(copy_value(&users), is_fred, 2), -1);
    assert_eq!(find_index(Value::Null, |_: &Value| true, 0), -1);
    assert_eq!(find_index(arr(vec![]), |_: &Value| true, 0), -1);
    assert_eq!(find_index(copy_value(&users), |_: &Value| true, 0), 0);
    assert_eq!(find_index(copy_value(&users), |_: &Value| true, 1), 1);
    assert_eq!(find_last_index(copy_value(&users), |_: &Value| true, usize::MAX), 2);
    assert_eq!(find_last_index(copy_value(&users), |_: &Value| true, 1), 1);
    assert_eq!(find_last_index(copy_value(&users), |v: &Value| *v == num(0), 1), -1);
    assert_eq!(find_last_index(obj(vec![]), |_: &Value| true, 0), -1);
}

#[test]
fn flatten_table() {
    let nested = arr(vec![num(1), arr(vec![num(2), arr(vec![num(3), arr(vec![num(4)])]), num(5)])]);
    assert_eq!(
        flatten(copy_value(&nested)),
        arr(vec![num(1), num(2), arr(vec![num(3), arr(vec![num(4)])]), num(5)])
    );
    assert_eq!(flatten_deep(copy_value(&nested)), arr(vec![num(1), num(2), num(3), num(4), num(5)]));
    assert_eq!(
        flatten_depth(copy_value(&nested), 2),
        arr(vec![num(1), num(2), num(3), arr(vec![num(4)]), num(5)])
    );
    assert_eq!(flatten_depth(copy_value(&nested), 0), nested);
    assert_eq!(flatten(s("りしれ")), arr(vec![s("り"), s("し"), s("れ")]));
    assert_eq!(flatten(s("")), arr(vec![]));
    assert_eq!(flatten(obj(vec![("a", num(1))])), arr(vec![]));
    assert_eq!(flatten_deep(s("ab")), arr(vec![s("a"), s("b")]));
    assert_eq!(flatten_depth(arr(vec![arr(vec![arr(vec![Value::Null])])]), 2), arr(vec![Value::Null]));
    assert_eq!(x_flatten_x(vec![num(1), arr(vec![num(2)])]), vec![num(1), num(2)]);
    assert_eq!(x_flatten_deep_x(vec![arr(vec![arr(vec![num(2)])])]), vec![num(2)]);
    assert_eq!(x_flatten_depth_x(vec![arr(vec![arr(vec![num(2)])])], 1), vec![arr(vec![num(2)])]);
}

#[test]
fn from_pairs_table() {
    assert_eq!(
        from_pairs(arr(vec![arr(vec![s("a"), num(1)]), arr(vec![s("b"), num(2)])])),
        obj(vec![("a", num(1)), ("b", num(2))])
    );
    assert_eq!(from_pairs(Value::Null), obj(vec![]));
    assert_eq!(from_pairs(s("ab")), obj(vec![]));
    assert_eq!(from_pairs(arr(vec![])), obj(vec![]));
    assert_eq!(from_pairs(arr(vec![s("a")])), obj(vec![]));
    assert_eq!(from_pairs(arr(vec![s("ab")])), obj(vec![("a", s("b"))]));
    assert_eq!(from_pairs(arr(vec![s("りしれ")])), obj(vec![("り", s("し"))]));
    assert_eq!(from_pairs(arr(vec![s("ab"), s("a")])), obj(vec![]));
    assert_eq!(from_pairs(obj(vec![("a", num(1))])), obj(vec![]));
    assert_eq!(
        from_pairs(arr(vec![obj(vec![]), arr(vec![Value::Null, Value::Bool(false)])])),
        obj(vec![("null", Value::Bool(false))])
    );
    assert_eq!(
        from_pairs(arr(vec![arr(vec![obj(vec![]), Value::Bool(false)])])),
        obj(vec![("[object Object]", Value::Bool(false))])
    );
    assert_eq!(
        from_pairs(arr(vec![
            s("aa"),
            arr(vec![s("a"), s("b")]),
            arr(vec![s("a"), arr(vec![s("c")])])
        ])),
        obj(vec![("a", arr(vec![s("c")]))])
    );
}

#[test]
fn head_last_initial_nth() {
    assert_eq!(head(Value::Null), Value::Null);
    assert_eq!(head(s("")), Value::Null);
    assert_eq!(head(s("ab")), s("a"));
    assert_eq!(head(s("東京")), s("東"));
    assert_eq!(head(arr(vec![num(1), num(2)])), num(1));
    assert_eq!(head(obj(vec![("a", num(1))])), Value::Null);
    assert_eq!(last(s("ab")), s("b"));
    assert_eq!(last(arr(vec![])), Value::Null);
    assert_eq!(last(arr(vec![arr(vec![Value::Null])])), arr(vec![Value::Null]));
    assert_eq!(initial(s("abc")), arr(vec![s("a"), s("b")]));
    assert_eq!(initial(s("日本国")), arr(vec![s("日"), s("本")]));
    assert_eq!(initial(s("a")), arr(vec![]));
    assert_eq!(initial(arr(vec![num(1), num(2), num(3)])), arr(vec![num(1), num(2)]));
    assert_eq!(initial(num(0)), arr(vec![]));
    assert_eq!(nth(s("ab"), 0), s("a"));
    assert_eq!(nth(s("夏至"), -1), s("至"));
    assert_eq!(nth(s("春分"), -3), Value::Null);
    assert_eq!(nth(s("秋分"), 2), Value::Null);
    assert_eq!(nth(arr(vec![num(1), num(2), num(3)]), -2), num(2));
    assert_eq!(nth(arr(vec![]), 0), Value::Null);
    assert_eq!(nth(obj(vec![]), 0), Value::Null);
}

#[test]
fn index_of_table() {
    let v = || arr(vec![obj(vec![("a", num(1))]), num(1), num(2), num(1), num(2)]);
    assert_eq!(index_of(Value::Null, Value::Null, 0), -1);
    assert_eq!(index_of(arr(vec![Value::Null]), Value::Null, 0), 0);
    assert_eq!(index_of(arr(vec![Value::Bool(false)]), Value::Bool(false), 0), 0);
    assert_eq!(index_of(arr(vec![s("")]), s(""), 0), 0);
    assert_eq!(index_of(arr(vec![arr(vec![])]), arr(vec![]), 0), -1);
    assert_eq!(index_of(arr(vec![obj(vec![("a", num(1))])]), obj(vec![("a", num(1))]), 0), -1);
    assert_eq!(index_of(v(), num(1), 0), 1);
    assert_eq!(index_of(v(), num(2), 0), 2);
    assert_eq!(index_of(v(), num(2), 3), 4);
    assert_eq!(index_of(v(), num(2), 6), -1);
    assert_eq!(last_index_of(v(), num(2), usize::MAX), 4);
    assert_eq!(last_index_of(v(), num(2), 3), 2);
    assert_eq!(last_index_of(v(), num(2), 6), 4);
    assert_eq!(last_index_of(arr(vec![num(1), num(1), num(1)]), num(1), 2), 2);
    assert_eq!(last_index_of(arr(vec![arr(vec![]), num(1)]), num(1), 5), 1);
    assert_eq!(last_index_of(arr(vec![]), num(1), 0), -1);
}

#[test]
fn intersection_table() {
    assert_eq!(intersection(arr(vec![num(2), num(1)]), arr(vec![num(2), num(3)])), arr(vec![num(2)]));
    assert_eq!(intersection_x(arr(vec![num(2), num(1)]), arr(vec![num(2), num(3)])), vec![num(2)]);
    assert_eq!(intersection(Value::Null, arr(vec![])), arr(vec![]));
    assert_eq!(intersection(s("ab"), s("ab")), arr(vec![]));
    assert_eq!(intersection(mixed(), arr(vec![])), arr(vec![]));
    assert_eq!(
        intersection(mixed(), mixed()),
        arr(vec![Value::Null, Value::Bool(false), num(0), s(""), s("ab")])
    );
    assert_eq!(intersection(arr(vec![num(1)]), arr(vec![num(1), num(1)])), arr(vec![num(1), num(1)]));
}

#[test]
fn join_table() {
    assert_eq!(join_x(arr(vec![s("a"), s("b"), s("c")]), "~"), "a~b~c");
    assert_eq!(join(arr(vec![s("a"), s("b"), s("c")]), "~"), s("a~b~c"));
    assert_eq!(join(Value::Null, ","), s(""));
    assert_eq!(join(s(""), ","), s(""));
    assert_eq!(join(s("ab"), ","), s("a,b"));
    assert_eq!(join(s("初音"), "🥰"), s("初🥰音"));
    assert_eq!(join(arr(vec![]), ","), s(""));
    assert_eq!(
        join(arr(vec![obj(vec![]), arr(vec![]), arr(vec![num(1), arr(vec![num(2), arr(vec![num(3)])])])]), ","),
        s("[object Object],,1,2,3")
    );
    assert_eq!(join(arr(vec![Value::Null, num(1)]), "-"), s("-1"));
    assert_eq!(join(obj(vec![]), ","), s(""));
}

#[test]
fn pull_table() {
    assert_eq!(pull(Value::Null, Value::Null), Value::Null);
    assert_eq!(pull(s(""), s("")), s(""));
    assert_eq!(pull(arr(vec![num(1), num(2), num(1)]), num(1)), arr(vec![num(2)]));
    assert_eq!(pull(arr(vec![arr(vec![])]), arr(vec![])), arr(vec![arr(vec![])]));
    assert_eq!(pull(arr(vec![obj(vec![])]), obj(vec![])), arr(vec![obj(vec![])]));
    assert_eq!(pull_all(arr(vec![Value::Null]), arr(vec![Value::Null])), arr(vec![]));
    assert_eq!(pull_all(arr(vec![arr(vec![])]), arr(vec![])), arr(vec![arr(vec![])]));
    assert_eq!(pull_all(arr(vec![arr(vec![])]), arr(vec![arr(vec![])])), arr(vec![]));
    assert_eq!(pull_all(arr(vec![obj(vec![])]), obj(vec![])), arr(vec![obj(vec![])]));
    assert_eq!(pull_all(obj(vec![]), arr(vec![])), obj(vec![]));
    assert_eq!(pull_all(arr(vec![Value::Null, num(0)]), arr(vec![Value::Null])), arr(vec![num(0)]));
}

#[test]
fn pull_by_and_with() {
    assert_eq!(
        pull_all_by(arr(vec![Value::Null, num(0)]), arr(vec![Value::Null]), |x: &Value| copy_value(x)),
        arr(vec![num(0)])
    );
    assert_eq!(
        pull_all_by(arr(vec![Value::Null, num(0)]), arr(vec![Value::Null]), |_: &Value| Value::Null),
        arr(vec![])
    );
    assert_eq!(pull_all_by(num(0), arr(vec![]), |x: &Value| copy_value(x)), num(0));
    assert_eq!(
        pull_all_with(arr(vec![Value::Null, num(0)]), arr(vec![Value::Null]), |_: &Value, _: &Value| false),
        arr(vec![Value::Null, num(0)])
    );
    assert_eq!(
        pull_all_with(arr(vec![Value::Null, num(0)]), arr(vec![Value::Null]), |a: &Value, _: &Value| *a == num(0)),
        arr(vec![Value::Null])
    );
    assert_eq!(pull_all_with(obj(vec![]), arr(vec![]), |_: &Value, _: &Value| true), obj(vec![]));
}

#[test]
fn pull_at_table() {
    let mut array = arr(vec![s("a"), s("b"), s("c"), s("d")]);
    let pulled = pull_at(&mut array, vec![1, 3]);
    assert_eq!(array, arr(vec![s("a"), s("c")]));
    assert_eq!(pulled, arr(vec![s("b"), s("d")]));
    let mut empty = arr(vec![]);
    assert_eq!(pull_at(&mut empty, vec![0]), arr(vec![Value::Null]));
    assert_eq!(empty, arr(vec![]));
    let mut scalar = num(1);
    assert_eq!(pull_at(&mut scalar, vec![0, 1]), arr(vec![Value::Null, Value::Null]));
    assert_eq!(scalar, num(1));
}
