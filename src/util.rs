//! Ranges, constant values, repetition, and unique identifiers.

use vstd::prelude::*;
use vstd::string::*;
use crate::value::{Json, Number, Value, group_value_views, seq_json, seq_entries, push_text};
use crate::text::{decimal, u64_text};
use crate::lang::{safe_integer_of, to_safe_integer_x};
use crate::search::elems;

verus! {

/// The integers from `start` up to `end` (exclusive), `step` apart.
pub open spec fn range_up(start: int, end: int, step: int) -> Seq<int>
    decreases (if end > start {
        end - start
    } else {
        0
    }),
{
    if step <= 0 || start >= end {
        Seq::empty()
    } else {
        seq![start] + range_up(start + step, end, step)
    }
}

/// The integers from `start` down to `end` (exclusive), `-step` apart.
pub open spec fn range_down(start: int, end: int, step: int) -> Seq<int>
    decreases (if start > end {
        start - end
    } else {
        0
    }),
{
    if step >= 0 || start <= end {
        Seq::empty()
    } else {
        seq![start] + range_down(start + step, end, step)
    }
}

/// The integers from `start` towards `end` (exclusive), `step` apart; with a
/// zero step, `start` repeated `end - start` times.
pub open spec fn range_ints(start: int, end: int, step: int) -> Seq<int> {
    if step > 0 {
        range_up(start, end, step)
    } else if step < 0 {
        range_down(start, end, step)
    } else if start >= end {
        Seq::empty()
    } else {
        Seq::new((end - start) as nat, |i: int| start)
    }
}

/// The integer values of a sequence of `isize`.
pub open spec fn isize_ints(v: Seq<isize>) -> Seq<int> {
    Seq::new(v.len(), |i: int| v[i] as int)
}

/// The number values of a sequence of integers.
pub open spec fn int_jsons(v: Seq<int>) -> Seq<Json> {
    Seq::new(v.len(), |i: int| Json::Num(v[i]))
}

/// The integers from `start` towards `end` (exclusive), `step` apart.
pub fn x_range_x(start: isize, end: isize, step: isize) -> (r: Vec<isize>)
    ensures
        isize_ints(r@) == range_ints(start as int, end as int, step as int),
{
    let mut r: Vec<isize> = Vec::new();
    let ghost all = range_ints(start as int, end as int, step as int);
    if step == 0 {
        if start < end {
            let n: i128 = end as i128 - start as i128;
            let mut k: i128 = 0;
            while k < n
                invariant
                    0 <= k <= n == end - start,
                    r@.len() == k,
                    forall|j: int| 0 <= j < k ==> #[trigger] r@[j] == start,
                decreases n - k,
            {
                r.push(start);
                k = k + 1;
            }
        }
        assert(isize_ints(r@) =~= all);
        return r;
    }
    let mut cur: i128 = start as i128;
    assert(isize_ints(r@) + range_ints(cur as int, end as int, step as int) =~= all);
    while (step > 0 && cur < end as i128) || (step < 0 && cur > end as i128)
        invariant
            step != 0,
            isize::MIN <= cur <= isize::MAX || (step > 0 && cur >= end) || (step < 0 && cur <= end),
            isize_ints(r@) + range_ints(cur as int, end as int, step as int) == all,
        decreases (if step > 0 && end > cur {
            end - cur
        } else if step < 0 && cur > end {
            cur - end
        } else {
            0
        }),
    {
        let ghost r0 = isize_ints(r@);
        r.push(cur as isize);
        assert(isize_ints(r@) =~= r0.push(cur as int));
        proof {
            if step > 0 {
                assert(range_ints(cur as int, end as int, step as int) == seq![cur as int] + range_ints(cur + step, end as int, step as int));
            } else {
                assert(range_ints(cur as int, end as int, step as int) == seq![cur as int] + range_ints(cur + step, end as int, step as int));
            }
            assert(r0.push(cur as int) + range_ints(cur + step, end as int, step as int) =~= r0 + (seq![cur as int] + range_ints(cur + step, end as int, step as int)));
        }
        cur = cur + step as i128;
    }
    proof {
        assert(range_ints(cur as int, end as int, step as int) =~= Seq::<int>::empty());
        assert(isize_ints(r@) + Seq::<int>::empty() =~= isize_ints(r@));
    }
    r
}

fn isize_values(v: &Vec<isize>) -> (r: Vec<Value>)
    ensures
        seq_json(r@) == int_jsons(isize_ints(v@)),
{
    broadcast use group_value_views;

    let mut r: Vec<Value> = Vec::new();
    let mut i: usize = 0;
    while i < v.len()
        invariant
            i <= v@.len(),
            r@.len() == i,
            forall|j: int| 0 <= j < i ==> #[trigger] r@[j]@ == Json::Num(v@[j] as int),
        decreases v@.len() - i,
    {
        r.push(Value::Number(Number::from_i64(v[i] as i64)));
        i = i + 1;
    }
    assert(seq_json(r@) =~= int_jsons(isize_ints(v@)));
    r
}

/// `x_range_x` as an array of numbers.
pub fn x_range(start: isize, end: isize, step: isize) -> (r: Value)
    ensures
        r@ == Json::Arr(int_jsons(range_ints(start as int, end as int, step as int))),
{
    broadcast use group_value_views;

    Value::Array(isize_values(&x_range_x(start, end, step)))
}

/// The integers from the integer of `start` towards that of `end`, `step` apart.
pub fn range_x(start: Value, end: Value, step: isize) -> (r: Vec<isize>)
    ensures
        isize_ints(r@) == range_ints(safe_integer_of(start@), safe_integer_of(end@), step as int),
{
    x_range_x(to_safe_integer_x(start), to_safe_integer_x(end), step)
}

/// `range_x` as an array of numbers.
pub fn range(start: Value, end: Value, step: isize) -> (r: Value)
    ensures
        r@ == Json::Arr(int_jsons(range_ints(safe_integer_of(start@), safe_integer_of(end@), step as int))),
{
    x_range(to_safe_integer_x(start), to_safe_integer_x(end), step)
}

/// `x_range_x` in reverse order.
pub fn x_range_right_x(start: isize, end: isize, step: isize) -> (r: Vec<isize>)
    ensures
        isize_ints(r@) == range_ints(start as int, end as int, step as int).reverse(),
{
    let v = x_range_x(start, end, step);
    let mut r: Vec<isize> = Vec::new();
    let mut i: usize = v.len();
    while i > 0
        invariant
            i <= v@.len(),
            r@.len() == v@.len() - i,
            forall|j: int| 0 <= j < r@.len() ==> #[trigger] r@[j] == v@[v@.len() - 1 - j],
        decreases i,
    {
        r.push(v[i - 1]);
        i = i - 1;
    }
    assert(isize_ints(r@) =~= isize_ints(v@).reverse());
    r
}

/// `x_range_right_x` as an array of numbers.
pub fn x_range_right(start: isize, end: isize, step: isize) -> (r: Value)
    ensures
        r@ == Json::Arr(int_jsons(range_ints(start as int, end as int, step as int).reverse())),
{
    broadcast use group_value_views;

    Value::Array(isize_values(&x_range_right_x(start, end, step)))
}

/// `range_x` in reverse order.
pub fn range_right_x(start: Value, end: Value, step: isize) -> (r: Vec<isize>)
    ensures
        isize_ints(r@) == range_ints(safe_integer_of(start@), safe_integer_of(end@), step as int).reverse(),
{
    x_range_right_x(to_safe_integer_x(start), to_safe_integer_x(end), step)
}

/// `range_right_x` as an array of numbers.
pub fn range_right(start: Value, end: Value, step: isize) -> (r: Value)
    ensures
        r@ == Json::Arr(
            int_jsons(range_ints(safe_integer_of(start@), safe_integer_of(end@), step as int).reverse()),
        ),
{
    x_range_right(to_safe_integer_x(start), to_safe_integer_x(end), step)
}

/// An empty array.
pub fn stub_array() -> (r: Value)
    ensures
        r@ == Json::Arr(Seq::empty()),
{
    broadcast use group_value_views;

    let v: Vec<Value> = Vec::new();
    assert(seq_json(v@) =~= Seq::<Json>::empty());
    Value::Array(v)
}

/// `false`.
pub fn stub_false() -> (r: Value)
    ensures
        r@ == Json::Bool(false),
{
    Value::Bool(false)
}

/// `true`.
pub fn stub_true() -> (r: Value)
    ensures
        r@ == Json::Bool(true),
{
    Value::Bool(true)
}

/// An empty object.
pub fn stub_object() -> (r: Value)
    ensures
        r@ == Json::Obj(Seq::empty()),
{
    broadcast use group_value_views;

    let v: Vec<(String, Value)> = Vec::new();
    assert(seq_entries(v@) =~= Seq::<(Seq<char>, Json)>::empty());
    Value::Object(v)
}

/// An empty string.
pub fn stub_string() -> (r: Value)
    ensures
        r@ == Json::Str(Seq::empty()),
{
    Value::String(String::new())
}

/// An array of what `iteratee` returns for `0`, `1`, ... up to `n` (exclusive).
pub fn x_times<F: Fn(usize) -> Value>(n: usize, iteratee: F) -> (r: Value)
    requires
        forall|i: usize| i < n ==> #[trigger] iteratee.requires((i,)),
    ensures
        r is Array,
        elems(r).len() == n,
        forall|i: int| 0 <= i < n ==> #[trigger] iteratee.ensures((i as usize,), elems(r)[i]),
{
    let mut v: Vec<Value> = Vec::new();
    let mut i: usize = 0;
    while i < n
        invariant
            i <= n,
            v@.len() == i,
            forall|k: usize| k < n ==> #[trigger] iteratee.requires((k,)),
            forall|j: int| 0 <= j < i ==> #[trigger] iteratee.ensures((j as usize,), v@[j]),
        decreases n - i,
    {
        let x = iteratee(i);
        v.push(x);
        i = i + 1;
    }
    Value::Array(v)
}

/// The count that `times` runs for: the integer of `n`, or zero when it is
/// negative.
pub open spec fn times_count(n: Json) -> int {
    if safe_integer_of(n) < 0 {
        0
    } else {
        safe_integer_of(n)
    }
}

/// `x_times` for as many steps as the integer of `n`; none when it is negative.
pub fn times<F: Fn(usize) -> Value>(n: Value, iteratee: F) -> (r: Value)
    requires
        forall|i: usize| #[trigger] iteratee.requires((i,)),
    ensures
        r is Array,
        elems(r).len() == times_count(n@),
        forall|i: int| 0 <= i < elems(r).len() ==> #[trigger] iteratee.ensures((i as usize,), elems(r)[i]),
{
    let k = to_safe_integer_x(n);
    let count: usize = if k < 0 { 0 } else { k as usize };
    x_times(count, iteratee)
}

/// A counter for unique identifiers: each identifier takes the next number.
pub struct IdCounter {
    pub count: u64,
}

impl IdCounter {
    /// A counter that has handed out no identifier.
    pub fn new() -> (r: IdCounter)
        ensures
            r.count == 0,
    {
        IdCounter { count: 0 }
    }
}

/// The next identifier: the counter moves on by one and `prefix` is followed by
/// its new value.
pub fn x_unique_id_x(counter: &mut IdCounter, prefix: &str) -> (r: String)
    requires
        old(counter).count < u64::MAX,
    ensures
        final(counter).count == old(counter).count + 1,
        r@ == prefix@ + decimal(final(counter).count as int),
{
    counter.count = counter.count + 1;
    let mut r = String::from_str(prefix);
    let t = u64_text(counter.count);
    push_text(&mut r, &t);
    r
}

/// `x_unique_id_x` as a string value.
pub fn x_unique_id(counter: &mut IdCounter, prefix: &str) -> (r: Value)
    requires
        old(counter).count < u64::MAX,
    ensures
        final(counter).count == old(counter).count + 1,
        r@ == Json::Str(prefix@ + decimal(final(counter).count as int)),
{
    Value::String(x_unique_id_x(counter, prefix))
}

/// The next identifier, as a string.
pub fn unique_id_x(counter: &mut IdCounter, prefix: &str) -> (r: String)
    requires
        old(counter).count < u64::MAX,
    ensures
        final(counter).count == old(counter).count + 1,
        r@ == prefix@ + decimal(final(counter).count as int),
{
    x_unique_id_x(counter, prefix)
}

/// The next identifier, as a string value.
pub fn unique_id(counter: &mut IdCounter, prefix: &str) -> (r: Value)
    requires
        old(counter).count < u64::MAX,
    ensures
        final(counter).count == old(counter).count + 1,
        r@ == Json::Str(prefix@ + decimal(final(counter).count as int)),
{
    x_unique_id(counter, prefix)
}

} // verus!
