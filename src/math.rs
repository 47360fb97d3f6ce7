//! The `+` operator on values, and rounding up.

use vstd::prelude::*;
use crate::value::{Json, Number, Value, push_text};
use crate::text::{pow10, lemma_pow10_grows, lemma_pow10_values, lemma_pow10_mono};
use crate::lang::{item_text, item_string, text_of, number_of, value_text};
use crate::coerce::{value_number, value_nan};

verus! {

/// Whether `x` can be held by a JSON integer.
pub open spec fn in_number_range(x: int) -> bool {
    i64::MIN <= x <= u64::MAX
}

/// The integer `x` as a JSON value; NaN (`null`) when no JSON integer holds it.
pub open spec fn int_json(x: int) -> Json {
    if in_number_range(x) {
        Json::Num(x)
    } else {
        Json::Null
    }
}

/// The `+` operator of a dynamically typed language on JSON values.
/// A string on the left absorbs the right operand's string form; a string on
/// the right absorbs the left operand's; otherwise an object gives NaN, and the
/// other values are added as numbers, NaN when one of them has no number.
pub open spec fn add_json(a: Json, b: Json) -> Json {
    if a is Str {
        Json::Str(a->Str_0 + text_of(b))
    } else if b is Str {
        Json::Str(item_text(a) + b->Str_0)
    } else if a is Obj || b is Obj {
        Json::Null
    } else {
        match (number_of(a), number_of(b)) {
            (Some(x), Some(y)) => int_json(x + y),
            _ => Json::Null,
        }
    }
}

/// The number holding `x`, when a JSON integer can hold it.
pub fn number_from_i128(x: i128) -> (r: Option<Number>)
    ensures
        r matches Some(n) ==> in_number_range(x as int) && n.int_value() == x && n.canonical(),
        r is None ==> !in_number_range(x as int),
{
    if x < 0 {
        if x < i64::MIN as i128 {
            None
        } else {
            Some(Number::NegInt(x as i64))
        }
    } else if x > u64::MAX as i128 {
        None
    } else {
        Some(Number::PosInt(x as u64))
    }
}

fn number_i128(n: Number) -> (r: i128)
    ensures
        r == n.int_value(),
{
    match n {
        Number::PosInt(u) => u as i128,
        Number::NegInt(i) => i as i128,
    }
}

/// The sum of two numbers.
pub fn x_add_x(n: Number, n2: Number) -> (r: Number)
    requires
        in_number_range(n.int_value() + n2.int_value()),
    ensures
        r.int_value() == n.int_value() + n2.int_value(),
        r.canonical(),
{
    let s = number_i128(n) + number_i128(n2);
    match number_from_i128(s) {
        Some(r) => r,
        None => Number::PosInt(0),
    }
}


/// Adds two values as the `+` operator of a dynamically typed language does.
/// A numeric result is canonical: unsigned when it is not negative.
pub fn add(augend: Value, addend: Value) -> (r: Value)
    ensures
        r@ == add_json(augend@, addend@),
        r matches Value::Number(n) ==> n.canonical(),
{
    if let Value::String(s) = &augend {
        let mut r = s.clone();
        let t = value_text(&addend);
        push_text(&mut r, &t);
        return Value::String(r);
    }
    if let Value::String(s) = &addend {
        let mut r = item_string(&augend);
        push_text(&mut r, s);
        return Value::String(r);
    }
    if let Value::Object(_) = &augend {
        return value_nan();
    }
    if let Value::Object(_) = &addend {
        return value_nan();
    }
    match (value_number(&augend), value_number(&addend)) {
        (Some(x), Some(y)) => match number_from_i128(number_i128(x) + number_i128(y)) {
            Some(n) => Value::Number(n),
            None => value_nan(),
        },
        _ => value_nan(),
    }
}

/// The smallest multiple of `10^k` that is at least `n`, clamped to the range of
/// JSON integers.
pub open spec fn ceil_int(n: int, k: nat) -> int {
    let p = pow10(k) as int;
    let c = if n >= 0 {
        ((n + p - 1) / p) * p
    } else {
        -(((-n) / p) * p)
    };
    if c > u64::MAX {
        u64::MAX as int
    } else {
        c
    }
}

/// `n` rounded up to `precision` decimal places.
pub open spec fn ceil_number(n: int, precision: int) -> int {
    if precision >= 0 {
        n
    } else {
        ceil_int(n, (-precision) as nat)
    }
}

/// `n` rounded up to `precision` decimal places; a negative precision rounds up
/// to a multiple of a power of ten, clamped to the largest JSON integer.
pub fn x_ceil_x(n: Number, precision: isize) -> (r: Number)
    ensures
        r.int_value() == ceil_number(n.int_value(), precision as int),
{
    if precision >= 0 {
        return n;
    }
    let x = number_i128(n);
    let k: i128 = 0 - (precision as i128);
    proof {
        lemma_pow10_grows(k as nat);
    }
    if k >= 20 {
        proof {
            lemma_pow10_values();
            let p = pow10(k as nat) as int;
            let xi = x as int;
            if xi > 0 {
                assert((xi + p - 1) / p == 1) by (nonlinear_arith)
                    requires xi > 0, xi <= p, p > 0;
            } else if xi == 0 {
                assert((xi + p - 1) / p == 0) by (nonlinear_arith)
                    requires xi == 0, p > 0;
            } else {
                assert((-xi) / p == 0) by (nonlinear_arith)
                    requires xi < 0, -xi < p, p > 0;
            }
        }
        if x > 0 {
            return Number::PosInt(u64::MAX);
        } else {
            return Number::PosInt(0);
        }
    }
    let mut p: i128 = 1;
    let mut i: i128 = 0;
    proof {
        lemma_pow10_values();
    }
    while i < k
        invariant
            0 <= i <= k < 20,
            p == pow10(i as nat),
            p <= pow10(19),
        decreases k - i,
    {
        proof {
            lemma_pow10_values();
            lemma_pow10_mono(i as nat + 1, 19);
        }
        p = p * 10;
        i = i + 1;
    }
    proof {
        lemma_pow10_values();
    }
    let c: i128 = if x >= 0 {
        let q = (x + p - 1) / p;
        proof {
            let xi = x as int;
            let pi = p as int;
            let qi = q as int;
            assert(qi * pi <= xi + pi) by (nonlinear_arith)
                requires qi == (xi + pi - 1) / pi, pi > 0, xi >= 0;
            assert(qi * pi >= 0) by (nonlinear_arith)
                requires qi == (xi + pi - 1) / pi, pi > 0, xi >= 0;
        }
        q * p
    } else {
        let q = (0 - x) / p;
        proof {
            let xi = x as int;
            let pi = p as int;
            let qi = q as int;
            assert(qi * pi <= -xi) by (nonlinear_arith)
                requires qi == (-xi) / pi, pi > 0, xi < 0;
            assert(qi * pi >= 0) by (nonlinear_arith)
                requires qi == (-xi) / pi, pi > 0, xi < 0;
        }
        0 - q * p
    };
    if c > u64::MAX as i128 {
        Number::PosInt(u64::MAX)
    } else if c < 0 {
        Number::NegInt(c as i64)
    } else {
        Number::PosInt(c as u64)
    }
}

/// The number `number` rounded up to `precision` decimal places, as a value.
pub fn x_ceil(number: Number, precision: isize) -> (r: Value)
    ensures
        r@ == Json::Num(ceil_number(number.int_value(), precision as int)),
{
    Value::Number(x_ceil_x(number, precision))
}

/// Rounds a value's number up to `precision` decimal places; NaN (`null`) when
/// the value has no number.
pub fn ceil(number: Value, precision: isize) -> (r: Value)
    ensures
        r@ == match number_of(number@) {
            Some(n) => Json::Num(ceil_number(n, precision as int)),
            None => Json::Null,
        },
{
    match value_number(&number) {
        Some(n) => x_ceil(n, precision),
        None => value_nan(),
    }
}

} // verus!
