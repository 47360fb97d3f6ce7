//! Array transforms: chunking, compaction, concatenation, slicing, filling,
//! and element access.

use vstd::prelude::*;
use crate::value::{Json, Number, Value, group_value_views, seq_json, chars_of, char_string, copy_value, copy_values, values_equal, is_scalar, is_scalar_value};

verus! {

/// The one-character strings of `s`, in order.
pub open spec fn chars_json(s: Seq<char>) -> Seq<Json> {
    Seq::new(s.len(), |i: int| Json::Str(seq![s[i]]))
}

/// The one-character string values of `s`.
pub fn char_values(s: &String) -> (r: Vec<Value>)
    ensures
        seq_json(r@) == chars_json(s@),
{
    broadcast use group_value_views;

    let cs = chars_of(s);
    let mut r: Vec<Value> = Vec::new();
    let mut i: usize = 0;
    while i < cs.len()
        invariant
            i <= cs@.len(),
            cs@ == s@,
            r@.len() == i,
            forall|j: int| 0 <= j < i ==> #[trigger] r@[j]@ == Json::Str(seq![s@[j]]),
        decreases cs@.len() - i,
    {
        let x = Value::String(char_string(cs[i]));
        r.push(x);
        i = i + 1;
    }
    assert(seq_json(r@) =~= chars_json(s@));
    r
}

fn empty_array() -> (r: Value)
    ensures
        r@ == Json::Arr(Seq::empty()),
{
    broadcast use group_value_views;

    let v: Vec<Value> = Vec::new();
    assert(seq_json(v@) =~= Seq::<Json>::empty());
    Value::Array(v)
}

/// `s` cut into runs of `size` elements; the last run may be shorter.
pub open spec fn chunks(s: Seq<Json>, size: nat) -> Seq<Json>
    decreases s.len(),
{
    if s.len() == 0 || size == 0 {
        Seq::empty()
    } else if s.len() <= size {
        seq![Json::Arr(s)]
    } else {
        seq![Json::Arr(s.subrange(0, size as int))] + chunks(s.subrange(size as int, s.len() as int), size)
    }
}

/// What `chunk` returns.
pub open spec fn chunk_json(v: Json, size: nat) -> Json {
    if size == 0 {
        Json::Arr(Seq::empty())
    } else {
        match v {
            Json::Str(s) => if size == 1 {
                Json::Arr(chars_json(s))
            } else {
                Json::Arr(chunks(chars_json(s), size))
            },
            Json::Arr(a) => Json::Arr(chunks(a, size)),
            _ => Json::Arr(Seq::empty()),
        }
    }
}

fn chunk_items(a: Vec<Value>, size: usize) -> (r: Vec<Value>)
    requires
        size > 0,
    ensures
        seq_json(r@) == chunks(seq_json(a@), size as nat),
{
    broadcast use group_value_views;

    let ghost s = seq_json(a@);
    let n = a.len();
    let mut r: Vec<Value> = Vec::new();
    let mut i: usize = 0;
    assert(s.subrange(0, n as int) =~= s);
    while i < n
        invariant
            i <= n == a@.len(),
            s == seq_json(a@),
            size > 0,
            seq_json(r@) + chunks(s.subrange(i as int, n as int), size as nat) == chunks(s, size as nat),
        decreases n - i,
    {
        let end = if n - i <= size { n } else { i + size };
        let part = copy_values(&a, i, end);
        let ghost rest = s.subrange(i as int, n as int);
        proof {
            assert(seq_json(a@.subrange(i as int, end as int)) =~= rest.subrange(0, end - i));
            if n - i > size {
                assert(rest.subrange(size as int, rest.len() as int) =~= s.subrange(end as int, n as int));
            } else {
                assert(rest.subrange(0, end - i) =~= rest);
                assert(s.subrange(n as int, n as int) =~= Seq::<Json>::empty());
            }
        }
        assert(seq_json(part@) == rest.subrange(0, end - i));
        proof {
            crate::value::lemma_array_view(part);
        }
        let x = Value::Array(part);
        assert(x@ == Json::Arr(seq_json(part@)));
        let ghost r0 = r@;
        r.push(x);
        assert(seq_json(r@) == seq_json(r0).push(x@));
        assert(seq_json(r@) + chunks(s.subrange(end as int, n as int), size as nat) =~= seq_json(r0) + chunks(rest, size as nat));
        i = end;
    }
    assert(s.subrange(n as int, n as int) =~= Seq::<Json>::empty());
    assert(seq_json(r@) + Seq::<Json>::empty() =~= seq_json(r@));
    r
}

/// Splits an array, or the characters of a string, into runs of `size`.
pub fn chunk(v: Value, size: usize) -> (r: Value)
    ensures
        r@ == chunk_json(v@, size as nat),
{
    broadcast use group_value_views;

    if size == 0 {
        return empty_array();
    }
    match v {
        Value::String(s) => {
            let cs = char_values(&s);
            if size == 1 {
                Value::Array(cs)
            } else {
                Value::Array(chunk_items(cs, size))
            }
        },
        Value::Array(a) => Value::Array(chunk_items(a, size)),
        _ => empty_array(),
    }
}

/// Whether an array element is kept by `compact`: `false`, `null`, `0` and `""`
/// are not.
pub open spec fn truthy(j: Json) -> bool {
    match j {
        Json::Null => false,
        Json::Bool(b) => b,
        Json::Num(n) => n != 0,
        Json::Str(s) => s.len() > 0,
        _ => true,
    }
}

/// The truthy elements of `s`, in order.
pub open spec fn keep_truthy(s: Seq<Json>) -> Seq<Json>
    decreases s.len(),
{
    if s.len() == 0 {
        Seq::empty()
    } else if truthy(s.last()) {
        keep_truthy(s.drop_last()).push(s.last())
    } else {
        keep_truthy(s.drop_last())
    }
}

/// What `compact` returns.
pub open spec fn compact_json(v: Json) -> Json {
    match v {
        Json::Str(s) => Json::Arr(chars_json(s)),
        Json::Arr(a) => Json::Arr(keep_truthy(a)),
        _ => Json::Arr(Seq::empty()),
    }
}

fn is_truthy(v: &Value) -> (r: bool)
    ensures
        r == truthy(v@),
{
    match v {
        Value::Null => false,
        Value::Bool(b) => *b,
        Value::Number(n) => match n {
            Number::PosInt(u) => *u != 0,
            Number::NegInt(i) => *i != 0,
        },
        Value::String(s) => s.as_str().unicode_len() > 0,
        _ => true,
    }
}

/// The elements of an array without the falsy ones; the characters of a string.
pub fn compact(v: Value) -> (r: Value)
    ensures
        r@ == compact_json(v@),
{
    broadcast use group_value_views;

    match v {
        Value::String(s) => Value::Array(char_values(&s)),
        Value::Array(a) => {
            let ghost s = seq_json(a@);
            let mut r: Vec<Value> = Vec::new();
            let mut i: usize = 0;
            assert(s.subrange(0, 0) =~= Seq::<Json>::empty());
            while i < a.len()
                invariant
                    i <= a@.len(),
                    s == seq_json(a@),
                    seq_json(r@) == keep_truthy(s.subrange(0, i as int)),
                decreases a@.len() - i,
            {
                assert(s.subrange(0, i + 1).drop_last() =~= s.subrange(0, i as int));
                if is_truthy(&a[i]) {
                    r.push(copy_value(&a[i]));
                }
                i = i + 1;
            }
            assert(s.subrange(0, a@.len() as int) =~= s);
            Value::Array(r)
        },
        _ => empty_array(),
    }
}

/// The elements of an array, or a one-element list of any other value.
pub open spec fn items_or_self(j: Json) -> Seq<Json> {
    match j {
        Json::Arr(a) => a,
        _ => seq![j],
    }
}

fn into_items(v: Value) -> (r: Vec<Value>)
    ensures
        seq_json(r@) == items_or_self(v@),
{
    broadcast use group_value_views;

    match v {
        Value::Array(a) => a,
        _ => {
            let ghost j = v@;
            let mut r: Vec<Value> = Vec::new();
            r.push(v);
            assert(seq_json(r@) =~= seq![j]);
            r
        },
    }
}

/// An array of the elements of `v` and then of `v2`; a value that is no array
/// counts as one element.
pub fn concat(v: Value, v2: Value) -> (r: Value)
    ensures
        r@ == Json::Arr(items_or_self(v@) + items_or_self(v2@)),
{
    broadcast use group_value_views;

    let mut r = into_items(v);
    let mut b = into_items(v2);
    let ghost s1 = seq_json(r@);
    let ghost s2 = seq_json(b@);
    let ghost ra = r@;
    let ghost rb = b@;
    r.append(&mut b);
    assert(seq_json(r@) =~= s1 + s2) by {
        assert(r@ =~= ra + rb);
    }
    Value::Array(r)
}

/// Whether `x` is a scalar that occurs in `b`.
pub open spec fn scalar_in(x: Json, b: Seq<Json>) -> bool {
    is_scalar(x) && b.contains(x)
}

/// The elements of `a` that are no scalar occurring in `b`.
pub open spec fn without_scalars_in(a: Seq<Json>, b: Seq<Json>) -> Seq<Json>
    decreases a.len(),
{
    if a.len() == 0 {
        Seq::empty()
    } else if scalar_in(a.last(), b) {
        without_scalars_in(a.drop_last(), b)
    } else {
        without_scalars_in(a.drop_last(), b).push(a.last())
    }
}

/// What `difference` returns.
pub open spec fn difference_json(v1: Json, v2: Json) -> Json {
    match v1 {
        Json::Arr(a) => match v2 {
            Json::Arr(b) => Json::Arr(without_scalars_in(a, b)),
            _ => v1,
        },
        _ => Json::Arr(Seq::empty()),
    }
}


/// The position of the first element of `b` equal to `x`.
fn position_of(b: &Vec<Value>, x: &Value) -> (r: Option<usize>)
    ensures
        r matches Some(i) ==> i < b@.len() && b@[i as int]@ == x@,
        r is None ==> !seq_json(b@).contains(x@),
{
    broadcast use group_value_views;

    let mut i: usize = 0;
    while i < b.len()
        invariant
            i <= b@.len(),
            forall|j: int| 0 <= j < i ==> b@[j]@ != x@,
        decreases b@.len() - i,
    {
        if values_equal(&b[i], x) {
            return Some(i);
        }
        i = i + 1;
    }
    proof {
        if seq_json(b@).contains(x@) {
            let j = choose|j: int| 0 <= j < seq_json(b@).len() && seq_json(b@)[j] == x@;
            assert(b@[j]@ == x@);
        }
    }
    None
}

/// The elements of the array `v1` that are no scalar found in the array `v2`;
/// `v1` itself when `v2` is no array; an empty array when `v1` is none.
pub fn difference(v1: Value, v2: Value) -> (r: Value)
    ensures
        r@ == difference_json(v1@, v2@),
{
    broadcast use group_value_views;

    match v1 {
        Value::Array(a) => match v2 {
            Value::Array(b) => {
                let ghost s = seq_json(a@);
                let ghost t = seq_json(b@);
                let mut r: Vec<Value> = Vec::new();
                let mut i: usize = 0;
                assert(s.subrange(0, 0) =~= Seq::<Json>::empty());
                while i < a.len()
                    invariant
                        i <= a@.len(),
                        s == seq_json(a@),
                        t == seq_json(b@),
                        seq_json(r@) == without_scalars_in(s.subrange(0, i as int), t),
                    decreases a@.len() - i,
                {
                    assert(s.subrange(0, i + 1).drop_last() =~= s.subrange(0, i as int));
                    let scalar = is_scalar_value(&a[i]);
                    let found = position_of(&b, &a[i]);
                    proof {
                        if let Some(j) = found {
                            assert(t[j as int] == a@[i as int]@);
                            assert(t.contains(a@[i as int]@));
                        }
                    }
                    let drop = scalar && found.is_some();
                    if !drop {
                        r.push(copy_value(&a[i]));
                    }
                    i = i + 1;
                }
                assert(s.subrange(0, a@.len() as int) =~= s);
                Value::Array(r)
            },
            _ => Value::Array(a),
        },
        _ => empty_array(),
    }
}

/// An array without its first `n` elements.
pub fn drop(v: Value, n: usize) -> (r: Value)
    ensures
        r@ == match v@ {
            Json::Arr(a) => if n > a.len() {
                Json::Arr(Seq::empty())
            } else {
                Json::Arr(a.subrange(n as int, a.len() as int))
            },
            _ => Json::Arr(Seq::empty()),
        },
{
    broadcast use group_value_views;

    match v {
        Value::Array(a) => {
            if n > a.len() {
                return empty_array();
            }
            let r = copy_values(&a, n, a.len());
            assert(seq_json(a@.subrange(n as int, a@.len() as int)) =~= seq_json(a@).subrange(n as int, a@.len() as int));
            Value::Array(r)
        },
        _ => empty_array(),
    }
}

/// An array without its last `n` elements.
pub fn drop_right(v: Value, n: usize) -> (r: Value)
    ensures
        r@ == match v@ {
            Json::Arr(a) => if n > a.len() {
                Json::Arr(Seq::empty())
            } else {
                Json::Arr(a.subrange(0, a.len() - n))
            },
            _ => Json::Arr(Seq::empty()),
        },
{
    broadcast use group_value_views;

    match v {
        Value::Array(a) => {
            if n > a.len() {
                return empty_array();
            }
            let r = copy_values(&a, 0, a.len() - n);
            assert(seq_json(a@.subrange(0, a@.len() - n)) =~= seq_json(a@).subrange(0, a@.len() - n));
            Value::Array(r)
        },
        _ => empty_array(),
    }
}

/// What `fill` returns.
pub open spec fn fill_json(array: Json, value: Json, start: int, end: int) -> Json {
    match array {
        Json::Arr(a) => Json::Arr(
            Seq::new(a.len(), |i: int| if start <= i < end { value } else { a[i] }),
        ),
        _ => Json::Arr(Seq::empty()),
    }
}

/// An array with the positions from `start` up to `end` (exclusive) set to
/// `value`; an empty array for any other value.
pub fn fill(array: Value, value: Value, start: usize, end: usize) -> (r: Value)
    ensures
        r@ == fill_json(array@, value@, start as int, end as int),
{
    broadcast use group_value_views;

    match array {
        Value::Array(a) => {
            let ghost s = seq_json(a@);
            let mut r: Vec<Value> = Vec::new();
            let mut i: usize = 0;
            while i < a.len()
                invariant
                    i <= a@.len(),
                    s == seq_json(a@),
                    r@.len() == i,
                    forall|j: int| 0 <= j < i ==> #[trigger] r@[j]@ == if start <= j < end {
                        value@
                    } else {
                        s[j]
                    },
                decreases a@.len() - i,
            {
                if start <= i && i < end {
                    r.push(copy_value(&value));
                } else {
                    r.push(copy_value(&a[i]));
                }
                i = i + 1;
            }
            assert(seq_json(r@) =~= Seq::new(s.len(), |j: int| if start <= j < end { value@ } else { s[j] }));
            Value::Array(r)
        },
        _ => empty_array(),
    }
}

/// The first element of an array, or the first character of a string; `null`
/// when there is none.
pub fn head(v: Value) -> (r: Value)
    ensures
        r@ == match v@ {
            Json::Arr(a) => if a.len() > 0 {
                a[0]
            } else {
                Json::Null
            },
            Json::Str(s) => if s.len() > 0 {
                Json::Str(seq![s[0]])
            } else {
                Json::Null
            },
            _ => Json::Null,
        },
{
    broadcast use group_value_views;

    match v {
        Value::Array(a) => if a.len() > 0 {
            copy_value(&a[0])
        } else {
            Value::Null
        },
        Value::String(s) => {
            let cs = chars_of(&s);
            if cs.len() > 0 {
                Value::String(char_string(cs[0]))
            } else {
                Value::Null
            }
        },
        _ => Value::Null,
    }
}

/// The last element of an array, or the last character of a string; `null`
/// when there is none.
pub fn last(v: Value) -> (r: Value)
    ensures
        r@ == match v@ {
            Json::Arr(a) => if a.len() > 0 {
                a.last()
            } else {
                Json::Null
            },
            Json::Str(s) => if s.len() > 0 {
                Json::Str(seq![s.last()])
            } else {
                Json::Null
            },
            _ => Json::Null,
        },
{
    broadcast use group_value_views;

    match v {
        Value::Array(a) => if a.len() > 0 {
            copy_value(&a[a.len() - 1])
        } else {
            Value::Null
        },
        Value::String(s) => {
            let cs = chars_of(&s);
            if cs.len() > 0 {
                Value::String(char_string(cs[cs.len() - 1]))
            } else {
                Value::Null
            }
        },
        _ => Value::Null,
    }
}

/// All but the last element of an array, or of the characters of a string; an
/// empty array when there are fewer than two.
pub fn initial(v: Value) -> (r: Value)
    ensures
        r@ == match v@ {
            Json::Arr(a) => if a.len() <= 1 {
                Json::Arr(Seq::empty())
            } else {
                Json::Arr(a.drop_last())
            },
            Json::Str(s) => if s.len() <= 1 {
                Json::Arr(Seq::empty())
            } else {
                Json::Arr(chars_json(s).drop_last())
            },
            _ => Json::Arr(Seq::empty()),
        },
{
    broadcast use group_value_views;

    let items = match v {
        Value::Array(a) => a,
        Value::String(s) => char_values(&s),
        _ => {
            return empty_array();
        },
    };
    if items.len() <= 1 {
        return empty_array();
    }
    let r = copy_values(&items, 0, items.len() - 1);
    assert(seq_json(items@.subrange(0, items@.len() - 1)) =~= seq_json(items@).drop_last());
    Value::Array(r)
}

/// The position that `n` names in a sequence of `len` elements: counted from the
/// end when negative.
pub open spec fn nth_position(len: int, n: int) -> int {
    if n < 0 {
        len + n
    } else {
        n
    }
}

/// The element of an array, or the character of a string, at position `n`
/// (counted from the end when negative); `null` when there is none.
pub fn nth(v: Value, n: isize) -> (r: Value)
    ensures
        r@ == match v@ {
            Json::Arr(a) => {
                let p = nth_position(a.len() as int, n as int);
                if 0 <= p < a.len() {
                    a[p]
                } else {
                    Json::Null
                }
            },
            Json::Str(s) => {
                let p = nth_position(s.len() as int, n as int);
                if 0 <= p < s.len() {
                    Json::Str(seq![s[p]])
                } else {
                    Json::Null
                }
            },
            _ => Json::Null,
        },
{
    broadcast use group_value_views;

    match v {
        Value::Array(a) => match position(a.len(), n) {
            Some(p) => copy_value(&a[p]),
            None => Value::Null,
        },
        Value::String(s) => {
            let cs = chars_of(&s);
            match position(cs.len(), n) {
                Some(p) => Value::String(char_string(cs[p])),
                None => Value::Null,
            }
        },
        _ => Value::Null,
    }
}

fn position(len: usize, n: isize) -> (r: Option<usize>)
    ensures
        r matches Some(p) ==> p == nth_position(len as int, n as int) && p < len,
        r is None ==> !(0 <= nth_position(len as int, n as int) < len),
{
    let p: i128 = if n < 0 { len as i128 + n as i128 } else { n as i128 };
    if 0 <= p && p < len as i128 {
        Some(p as usize)
    } else {
        None
    }
}

} // verus!
