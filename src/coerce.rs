//! Coercion of values to numbers, and the values that stand for NaN,
//! infinity and undefined.

use vstd::prelude::*;
use crate::value::{Json, Number, Value, group_value_views, chars_of};
use crate::lang::{number_of, string_number, opt_int, read_signed, read_unsigned};

verus! {

/// The value that stands for "undefined": `null`.
pub fn value_undefined() -> (r: Value)
    ensures
        r@ == Json::Null,
{
    Value::Null
}

/// The canonical not-a-number value. A JSON document cannot hold NaN, so
/// this library writes it as `null`, as a JSON serializer does.
pub fn value_nan() -> (r: Value)
    ensures
        r@ == Json::Null,
{
    Value::Null
}

/// The value that stands for infinity. A JSON document cannot hold it either,
/// so it is written as `null`.
pub fn value_infinity() -> (r: Value)
    ensures
        r@ == Json::Null,
{
    Value::Null
}

/// The number that stands in for NaN where a `Number` must be returned: zero.
pub fn number_nan() -> (r: Number)
    ensures
        r.int_value() == 0,
{
    Number::PosInt(0)
}

/// The number that `null` coerces to.
pub fn value_null_to_number() -> (r: Number)
    ensures
        r.int_value() == 0,
{
    Number::PosInt(0)
}

/// The number that a boolean coerces to.
pub fn bool_to_number(b: bool) -> (r: Number)
    ensures
        r.int_value() == if b {
            1int
        } else {
            0int
        },
{
    if b {
        Number::PosInt(1)
    } else {
        Number::PosInt(0)
    }
}

/// The number that a string coerces to: zero when empty, else its value as an
/// unsigned integer, else as a signed one; `None` (NaN) for other text.
pub fn string_to_option_number(s: String) -> (r: Option<Number>)
    ensures
        opt_int(r) == string_number(s@),
{
    let cs = chars_of(&s);
    if cs.len() == 0 {
        return Some(Number::PosInt(0));
    }
    match read_unsigned(&cs) {
        Some(u) => Some(Number::PosInt(u)),
        None => match read_signed(&cs) {
            Some(i) => Some(Number::from_i64(i as i64)),
            None => None,
        },
    }
}

fn option_number(value: &Value) -> (r: Option<Number>)
    ensures
        opt_int(r) == number_of(value@),
    decreases value,
{
    broadcast use group_value_views;
    broadcast use vstd::std_specs::vec::axiom_vec_index_decreases;

    match value {
        Value::Null => Some(value_null_to_number()),
        Value::Bool(b) => Some(bool_to_number(*b)),
        Value::Number(n) => Some(*n),
        Value::String(s) => string_to_option_number(s.clone()),
        Value::Array(vec) => if vec.len() == 0 {
            Some(value_null_to_number())
        } else if vec.len() == 1 {
            assert(decreases_to!(*vec => vec@[0]));
            option_number(&vec[0])
        } else {
            None
        },
        Value::Object(_) => None,
    }
}

/// The number that an array coerces to: zero when empty, its element's number
/// when it has one element, else `None` (NaN).
pub fn vec_value_to_option_number(vec: Vec<Value>) -> (r: Option<Number>)
    ensures
        opt_int(r) == number_of(Value::Array(vec)@),
{
    option_number(&Value::Array(vec))
}

/// The number that a value coerces to; `None` stands for NaN.
pub fn value_to_option_number(value: Value) -> (r: Option<Number>)
    ensures
        opt_int(r) == number_of(value@),
{
    option_number(&value)
}

/// The number of `&value`, for callers that keep the value.
pub fn value_number(value: &Value) -> (r: Option<Number>)
    ensures
        opt_int(r) == number_of(value@),
{
    option_number(value)
}

} // verus!
