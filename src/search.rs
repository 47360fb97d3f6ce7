//! Searching arrays and removing elements from them.

use vstd::prelude::*;
use crate::value::{Json, Value, group_value_views, seq_json, copy_value, values_equal, is_scalar, is_scalar_value};

verus! {

/// Whether the positions of `j`, when it is an array, fit in an `isize`.
pub open spec fn positions_fit(j: Json) -> bool {
    j is Arr ==> j->Arr_0.len() <= isize::MAX
}

/// The position of the first occurrence of the scalar `value` in the array
/// `array` at or after `from_index`; `-1` when there is none, when `array` is
/// no array, or when `value` is no scalar.
pub fn index_of(array: Value, value: Value, from_index: usize) -> (r: isize)
    requires
        positions_fit(array@),
    ensures
        r == -1 || r >= 0,
        r >= 0 ==> is_scalar(value@) && array@ is Arr && from_index <= r < array@->Arr_0.len()
            && array@->Arr_0[r as int] == value@ && forall|j: int|
            from_index <= j < r ==> array@->Arr_0[j] != value@,
        r == -1 ==> !is_scalar(value@) || !(array@ is Arr) || forall|j: int|
            from_index <= j < array@->Arr_0.len() ==> array@->Arr_0[j] != value@,
{
    broadcast use group_value_views;

    match value {
        Value::Array(_) | Value::Object(_) => -1,
        _ => match &array {
            Value::Array(a) => {
                let ghost s = seq_json(a@);
                let mut i: usize = from_index;
                while i < a.len()
                    invariant
                        s == seq_json(a@),
                        array@ == Json::Arr(s),
                        is_scalar(value@),
                        from_index <= i,
                        a@.len() <= isize::MAX,
                        forall|j: int| from_index <= j < i ==> s[j] != value@,
                    decreases a@.len() - i,
                {
                    if values_equal(&a[i], &value) {
                        return i as isize;
                    }
                    i = i + 1;
                }
                -1
            },
            _ => -1,
        },
    }
}

/// The position of the last occurrence of the scalar `value` in the array
/// `array` at or before `from_index`; `-1` when there is none, when `array` is
/// no array, or when `value` is no scalar.
pub fn last_index_of(array: Value, value: Value, from_index: usize) -> (r: isize)
    requires
        positions_fit(array@),
    ensures
        r == -1 || r >= 0,
        r >= 0 ==> is_scalar(value@) && array@ is Arr && r <= from_index && r < array@->Arr_0.len()
            && array@->Arr_0[r as int] == value@ && forall|j: int|
            r < j <= from_index && j < array@->Arr_0.len() ==> array@->Arr_0[j] != value@,
        r == -1 ==> !is_scalar(value@) || !(array@ is Arr) || forall|j: int|
            0 <= j <= from_index && j < array@->Arr_0.len() ==> array@->Arr_0[j] != value@,
{
    broadcast use group_value_views;

    match value {
        Value::Array(_) | Value::Object(_) => -1,
        _ => match &array {
            Value::Array(a) => {
                let ghost s = seq_json(a@);
                let mut i: usize = if from_index < a.len() { from_index + 1 } else { a.len() };
                while i > 0
                    invariant
                        s == seq_json(a@),
                        array@ == Json::Arr(s),
                        is_scalar(value@),
                        a@.len() <= isize::MAX,
                        i <= a@.len(),
                        i <= from_index + 1,
                        forall|j: int| i <= j <= from_index && j < s.len() ==> s[j] != value@,
                    decreases i,
                {
                    if values_equal(&a[i - 1], &value) {
                        return (i - 1) as isize;
                    }
                    i = i - 1;
                }
                -1
            },
            _ => -1,
        },
    }
}

/// The elements of `v`, when it is an array.
pub open spec fn elems(v: Value) -> Seq<Value> {
    match v {
        Value::Array(a) => a@,
        _ => Seq::empty(),
    }
}

/// The position of the first element at or after `from_index` that `predicate`
/// accepts; `-1` when there is none or `array` is no array.
pub fn find_index<F: Fn(&Value) -> bool>(array: Value, predicate: F, from_index: usize) -> (r: isize)
    requires
        positions_fit(array@),
        forall|v: &Value| #[trigger] predicate.requires((v,)),
    ensures
        r == -1 || r >= 0,
        r >= 0 ==> array is Array && from_index <= r < elems(array).len() && predicate.ensures(
            (&elems(array)[r as int],),
            true,
        ) && forall|j: int|
            from_index <= j < r ==> predicate.ensures((&elems(array)[j],), false),
        r == -1 ==> forall|j: int|
            from_index <= j < elems(array).len() ==> predicate.ensures((&elems(array)[j],), false),
{
    broadcast use group_value_views;

    match &array {
        Value::Array(a) => {
            proof {
                assert(elems(array) == a@);
                assert(a@.len() == seq_json(a@).len());
            }
            let mut i: usize = from_index;
            while i < a.len()
                invariant
                    array is Array,
                    elems(array) == a@,
                    from_index <= i,
                    a@.len() <= isize::MAX,
                    forall|v: &Value| #[trigger] predicate.requires((v,)),
                    forall|j: int| from_index <= j < i ==> predicate.ensures((&a@[j],), false),
                decreases a@.len() - i,
            {
                if predicate(&a[i]) {
                    return i as isize;
                }
                i = i + 1;
            }
            -1
        },
        _ => -1,
    }
}

/// The position of the last element at or before `from_index` (the last one
/// when `from_index` is past the end) that `predicate` accepts; `-1` when there
/// is none or `array` is no array.
pub fn find_last_index<F: Fn(&Value) -> bool>(array: Value, predicate: F, from_index: usize) -> (r: isize)
    requires
        positions_fit(array@),
        forall|v: &Value| #[trigger] predicate.requires((v,)),
    ensures
        r == -1 || r >= 0,
        r >= 0 ==> array is Array && r < elems(array).len() && r <= from_index && predicate.ensures(
            (&elems(array)[r as int],),
            true,
        ) && forall|j: int|
            r < j < elems(array).len() && j <= from_index ==> predicate.ensures((&elems(array)[j],), false),
        r == -1 ==> forall|j: int|
            0 <= j < elems(array).len() && j <= from_index ==> predicate.ensures((&elems(array)[j],), false),
{
    broadcast use group_value_views;

    match &array {
        Value::Array(a) => {
            proof {
                assert(elems(array) == a@);
                assert(a@.len() == seq_json(a@).len());
            }
            let mut i: usize = if from_index < a.len() { from_index + 1 } else { a.len() };
            while i > 0
                invariant
                    array is Array,
                    elems(array) == a@,
                    a@.len() <= isize::MAX,
                    i <= a@.len(),
                    i <= from_index + 1,
                    forall|v: &Value| #[trigger] predicate.requires((v,)),
                    forall|j: int| i <= j < a@.len() && j <= from_index ==> predicate.ensures((&a@[j],), false),
                decreases i,
            {
                if predicate(&a[i - 1]) {
                    return (i - 1) as isize;
                }
                i = i - 1;
            }
            -1
        },
        _ => -1,
    }
}

/// The elements of `a` not equal to any element of `b`.
pub open spec fn without_all(a: Seq<Json>, b: Seq<Json>) -> Seq<Json>
    decreases a.len(),
{
    if a.len() == 0 {
        Seq::empty()
    } else if b.contains(a.last()) {
        without_all(a.drop_last(), b)
    } else {
        without_all(a.drop_last(), b).push(a.last())
    }
}

fn contains_value(b: &Vec<Value>, x: &Value) -> (r: bool)
    ensures
        r == seq_json(b@).contains(x@),
{
    broadcast use group_value_views;

    let mut i: usize = 0;
    while i < b.len()
        invariant
            i <= b@.len(),
            forall|j: int| 0 <= j < i ==> b@[j]@ != x@,
        decreases b@.len() - i,
    {
        if values_equal(&b[i], x) {
            assert(seq_json(b@)[i as int] == x@);
            return true;
        }
        i = i + 1;
    }
    proof {
        if seq_json(b@).contains(x@) {
            let j = choose|j: int| 0 <= j < seq_json(b@).len() && seq_json(b@)[j] == x@;
            assert(b@[j]@ == x@);
        }
    }
    false
}

fn remove_all(a: &Vec<Value>, b: &Vec<Value>) -> (r: Vec<Value>)
    ensures
        seq_json(r@) == without_all(seq_json(a@), seq_json(b@)),
{
    broadcast use group_value_views;

    let ghost s = seq_json(a@);
    let mut r: Vec<Value> = Vec::new();
    let mut i: usize = 0;
    assert(s.subrange(0, 0) =~= Seq::<Json>::empty());
    while i < a.len()
        invariant
            i <= a@.len(),
            s == seq_json(a@),
            seq_json(r@) == without_all(s.subrange(0, i as int), seq_json(b@)),
        decreases a@.len() - i,
    {
        assert(s.subrange(0, i + 1).drop_last() =~= s.subrange(0, i as int));
        if !contains_value(b, &a[i]) {
            r.push(copy_value(&a[i]));
        }
        i = i + 1;
    }
    assert(s.subrange(0, a@.len() as int) =~= s);
    r
}

/// The array without the elements equal to the scalar `value`; `array`
/// unchanged when it is no array or `value` is no scalar.
pub fn pull(array: Value, value: Value) -> (r: Value)
    ensures
        r@ == match array@ {
            Json::Arr(a) => if is_scalar(value@) {
                Json::Arr(without_all(a, seq![value@]))
            } else {
                array@
            },
            _ => array@,
        },
{
    broadcast use group_value_views;

    if !matches!(array, Value::Array(_)) {
        return array;
    }
    match value {
        Value::Array(_) | Value::Object(_) => array,
        _ => match array {
            Value::Array(a) => {
                let ghost vj = value@;
                let mut b: Vec<Value> = Vec::new();
                b.push(value);
                assert(seq_json(b@) =~= seq![vj]);
                Value::Array(remove_all(&a, &b))
            },
            _ => array,
        },
    }
}

/// The array without the elements equal to one of the elements of the array
/// `values`; `array` unchanged when either is no array.
pub fn pull_all(array: Value, values: Value) -> (r: Value)
    ensures
        r@ == match (array@, values@) {
            (Json::Arr(a), Json::Arr(b)) => Json::Arr(without_all(a, b)),
            _ => array@,
        },
{
    broadcast use group_value_views;

    match (&array, &values) {
        (Value::Array(a), Value::Array(b)) => Value::Array(remove_all(a, b)),
        _ => array,
    }
}

/// How often `x` occurs in `b`.
pub open spec fn count_of(b: Seq<Json>, x: Json) -> nat
    decreases b.len(),
{
    if b.len() == 0 {
        0
    } else {
        count_of(b.drop_last(), x) + if b.last() == x {
            1nat
        } else {
            0nat
        }
    }
}

/// For each scalar of `a`, in order, as many copies as `b` holds of it.
pub open spec fn common_scalars(a: Seq<Json>, b: Seq<Json>) -> Seq<Json>
    decreases a.len(),
{
    if a.len() == 0 {
        Seq::empty()
    } else if is_scalar(a.last()) {
        common_scalars(a.drop_last(), b) + Seq::new(count_of(b, a.last()), |i: int| a.last())
    } else {
        common_scalars(a.drop_last(), b)
    }
}

/// What `intersection_x` returns.
pub open spec fn intersection_items(v1: Json, v2: Json) -> Seq<Json> {
    match (v1, v2) {
        (Json::Arr(a), Json::Arr(b)) => common_scalars(a, b),
        _ => Seq::empty(),
    }
}

/// The scalars of the array `v1` that the array `v2` also holds, one copy per
/// match; empty when either is no array.
pub fn intersection_x(v1: Value, v2: Value) -> (r: Vec<Value>)
    ensures
        seq_json(r@) == intersection_items(v1@, v2@),
{
    broadcast use group_value_views;

    let mut r: Vec<Value> = Vec::new();
    match (&v1, &v2) {
        (Value::Array(a), Value::Array(b)) => {
            let ghost s = seq_json(a@);
            let ghost t = seq_json(b@);
            let mut i: usize = 0;
            assert(s.subrange(0, 0) =~= Seq::<Json>::empty());
            assert(seq_json(r@) =~= Seq::<Json>::empty());
            while i < a.len()
                invariant
                    i <= a@.len(),
                    s == seq_json(a@),
                    t == seq_json(b@),
                    seq_json(r@) == common_scalars(s.subrange(0, i as int), t),
                decreases a@.len() - i,
            {
                assert(s.subrange(0, i + 1).drop_last() =~= s.subrange(0, i as int));
                if is_scalar_value(&a[i]) {
                    let ghost base = seq_json(r@);
                    let mut j: usize = 0;
                    assert(t.subrange(0, 0) =~= Seq::<Json>::empty());
                    assert(base + Seq::new(0, |k: int| s[i as int]) =~= base);
                    while j < b.len()
                        invariant
                            i < a@.len(),
                            j <= b@.len(),
                            s == seq_json(a@),
                            t == seq_json(b@),
                            seq_json(r@) =~= base + Seq::new(count_of(t.subrange(0, j as int), s[i as int]), |k: int| s[i as int]),
                        decreases b@.len() - j,
                    {
                        assert(t.subrange(0, j + 1).drop_last() =~= t.subrange(0, j as int));
                        let ghost r0 = seq_json(r@);
                        let ghost c0 = count_of(t.subrange(0, j as int), s[i as int]);
                        if values_equal(&a[i], &b[j]) {
                            r.push(copy_value(&a[i]));
                            assert(seq_json(r@) =~= r0.push(s[i as int]));
                        }
                        j = j + 1;
                        assert(Seq::new(count_of(t.subrange(0, j as int), s[i as int]), |k: int| s[i as int]) =~= if t[j - 1] == s[i as int] {
                            Seq::new(c0, |k: int| s[i as int]).push(s[i as int])
                        } else {
                            Seq::new(c0, |k: int| s[i as int])
                        });
                    }
                    assert(t.subrange(0, b@.len() as int) =~= t);
                }
                i = i + 1;
            }
            assert(s.subrange(0, a@.len() as int) =~= s);
        },
        _ => {
            assert(seq_json(r@) =~= Seq::<Json>::empty());
        },
    }
    r
}


/// `intersection_x` as an array value.
pub fn intersection(v1: Value, v2: Value) -> (r: Value)
    ensures
        r@ == Json::Arr(intersection_items(v1@, v2@)),
{
    broadcast use group_value_views;

    Value::Array(intersection_x(v1, v2))
}


/// The elements of `a` whose flag in `keep` is set, in order.
pub open spec fn kept(a: Seq<Json>, keep: Seq<bool>) -> Seq<Json>
    decreases a.len(),
{
    if a.len() == 0 {
        Seq::empty()
    } else if keep[a.len() - 1] {
        kept(a.drop_last(), keep).push(a.last())
    } else {
        kept(a.drop_last(), keep)
    }
}

proof fn lemma_kept_prefix(a: Seq<Json>, keep: Seq<bool>, keep2: Seq<bool>)
    requires
        keep2.len() >= a.len(),
        keep.len() >= a.len(),
        forall|i: int| 0 <= i < a.len() ==> keep[i] == keep2[i],
    ensures
        kept(a, keep) == kept(a, keep2),
    decreases a.len(),
{
    if a.len() > 0 {
        lemma_kept_prefix(a.drop_last(), keep, keep2);
    }
}

/// The array without the elements for which `comparator` holds against some
/// element of the array `values`; `array` unchanged when either is no array.
/// Each element is kept exactly when every comparison with it returned `false`.
pub fn pull_all_with<F: Fn(&Value, &Value) -> bool>(array: Value, values: Value, comparator: F) -> (r: Value)
    requires
        forall|x: &Value, y: &Value| #[trigger] comparator.requires((x, y)),
    ensures
        (array is Array && values is Array) ==> exists|keep: Seq<bool>|
            {
                &&& keep.len() == elems(array).len()
                &&& forall|i: int, j: int|
                    0 <= i < keep.len() && keep[i] && 0 <= j < elems(values).len()
                        ==> #[trigger] comparator.ensures((&elems(array)[i], &elems(values)[j]), false)
                &&& forall|i: int|
                    0 <= i < keep.len() && !keep[i] ==> exists|j: int|
                        0 <= j < elems(values).len() && #[trigger] comparator.ensures(
                            (&elems(array)[i], &elems(values)[j]),
                            true,
                        )
                &&& r@ == Json::Arr(kept(seq_json(elems(array)), keep))
            },
        !(array is Array && values is Array) ==> r@ == array@,
{
    broadcast use group_value_views;

    match (&array, &values) {
        (Value::Array(a), Value::Array(b)) => {
            let ghost s = seq_json(a@);
            let ghost mut keep: Seq<bool> = Seq::empty();
            let mut r: Vec<Value> = Vec::new();
            let mut i: usize = 0;
            assert(s.subrange(0, 0) =~= Seq::<Json>::empty());
            while i < a.len()
                invariant
                    i <= a@.len(),
                    s == seq_json(a@),
                    elems(array) == a@,
                    elems(values) == b@,
                    keep.len() == i,
                    forall|x: &Value, y: &Value| #[trigger] comparator.requires((x, y)),
                    forall|k: int, j: int|
                        0 <= k < i && keep[k] && 0 <= j < b@.len()
                            ==> #[trigger] comparator.ensures((&a@[k], &b@[j]), false),
                    forall|k: int|
                        0 <= k < i && !keep[k] ==> exists|j: int|
                            0 <= j < b@.len() && #[trigger] comparator.ensures((&a@[k], &b@[j]), true),
                    seq_json(r@) == kept(s.subrange(0, i as int), keep),
                decreases a@.len() - i,
            {
                let mut hit = false;
                let mut j: usize = 0;
                while j < b.len() && !hit
                    invariant
                        i < a@.len(),
                        j <= b@.len(),
                        forall|x: &Value, y: &Value| #[trigger] comparator.requires((x, y)),
                        !hit ==> forall|m: int| 0 <= m < j ==> #[trigger] comparator.ensures((&a@[i as int], &b@[m]), false),
                        hit ==> exists|m: int| 0 <= m < b@.len() && #[trigger] comparator.ensures((&a@[i as int], &b@[m]), true),
                    decreases b@.len() - j,
                {
                    if comparator(&a[i], &b[j]) {
                        hit = true;
                    }
                    j = j + 1;
                }
                let ghost keep0 = keep;
                proof {
                    keep = keep.push(!hit);
                    lemma_kept_prefix(s.subrange(0, i as int), keep0, keep);
                    assert(s.subrange(0, i + 1).drop_last() =~= s.subrange(0, i as int));
                }
                if !hit {
                    r.push(copy_value(&a[i]));
                }
                i = i + 1;
            }
            assert(s.subrange(0, a@.len() as int) =~= s);
            Value::Array(r)
        },
        _ => array,
    }
}

/// The array without the elements whose key, as `iteratee` gives it, equals the
/// key of some element of the array `values`; `array` unchanged when either is
/// no array.
pub fn pull_all_by<F: Fn(&Value) -> Value>(array: Value, values: Value, iteratee: F) -> (r: Value)
    requires
        forall|x: &Value| #[trigger] iteratee.requires((x,)),
    ensures
        (array is Array && values is Array) ==> exists|keep: Seq<bool>, ka: Seq<Value>, kb: Seq<Value>|
            #![trigger kept(seq_json(elems(array)), keep), seq_json(kb), ka.len()]
            {
                &&& keep.len() == ka.len() == elems(array).len()
                &&& kb.len() == elems(values).len()
                &&& forall|i: int| 0 <= i < ka.len() ==> #[trigger] iteratee.ensures((&elems(array)[i],), ka[i])
                &&& forall|j: int| 0 <= j < kb.len() ==> #[trigger] iteratee.ensures((&elems(values)[j],), kb[j])
                &&& forall|i: int| 0 <= i < keep.len() ==> (keep[i] <==> !seq_json(kb).contains(#[trigger] ka[i]@))
                &&& r@ == Json::Arr(kept(seq_json(elems(array)), keep))
            },
        !(array is Array && values is Array) ==> r@ == array@,
{
    broadcast use group_value_views;

    match (&array, &values) {
        (Value::Array(a), Value::Array(b)) => {
            let mut kb: Vec<Value> = Vec::new();
            let mut j: usize = 0;
            while j < b.len()
                invariant
                    j <= b@.len(),
                    kb@.len() == j,
                    forall|x: &Value| #[trigger] iteratee.requires((x,)),
                    forall|m: int| 0 <= m < j ==> #[trigger] iteratee.ensures((&b@[m],), kb@[m]),
                decreases b@.len() - j,
            {
                kb.push(iteratee(&b[j]));
                j = j + 1;
            }
            let ghost s = seq_json(a@);
            let ghost mut keep: Seq<bool> = Seq::empty();
            let ghost mut ka: Seq<Value> = Seq::empty();
            let mut r: Vec<Value> = Vec::new();
            let mut i: usize = 0;
            assert(s.subrange(0, 0) =~= Seq::<Json>::empty());
            while i < a.len()
                invariant
                    i <= a@.len(),
                    s == seq_json(a@),
                    elems(array) == a@,
                    elems(values) == b@,
                    kb@.len() == b@.len(),
                    keep.len() == i,
                    ka.len() == i,
                    forall|x: &Value| #[trigger] iteratee.requires((x,)),
                    forall|m: int| 0 <= m < b@.len() ==> #[trigger] iteratee.ensures((&b@[m],), kb@[m]),
                    forall|k: int| 0 <= k < i ==> #[trigger] iteratee.ensures((&a@[k],), ka[k]),
                    forall|k: int| 0 <= k < i ==> (keep[k] <==> !seq_json(kb@).contains(#[trigger] ka[k]@)),
                    seq_json(r@) == kept(s.subrange(0, i as int), keep),
                decreases a@.len() - i,
            {
                let key = iteratee(&a[i]);
                let hit = contains_value(&kb, &key);
                let ghost keep0 = keep;
                proof {
                    keep = keep.push(!hit);
                    ka = ka.push(key);
                    lemma_kept_prefix(s.subrange(0, i as int), keep0, keep);
                    assert(s.subrange(0, i + 1).drop_last() =~= s.subrange(0, i as int));
                }
                if !hit {
                    r.push(copy_value(&a[i]));
                }
                i = i + 1;
            }
            assert(s.subrange(0, a@.len() as int) =~= s);
            let ghost kbs = kb@;
            assert(seq_json(elems(array)) == s);
            assert(ka.len() == elems(array).len());
            assert(seq_json(kbs) == seq_json(kb@));
            let res = Value::Array(r);
            assert(res@ == Json::Arr(kept(seq_json(elems(array)), keep)));
            assert(forall|i: int| 0 <= i < ka.len() ==> #[trigger] iteratee.ensures((&elems(array)[i],), ka[i]));
            assert(forall|j: int| 0 <= j < kbs.len() ==> #[trigger] iteratee.ensures((&elems(values)[j],), kbs[j]));
            res
        },
        _ => array,
    }
}

/// Whether `k` is one of `idx`.
pub open spec fn named(idx: Seq<usize>, k: int) -> bool {
    exists|j: int| 0 <= j < idx.len() && idx[j] as int == k
}

/// The elements of `a` whose positions `idx` does not name.
pub open spec fn unnamed(a: Seq<Json>, idx: Seq<usize>) -> Seq<Json>
    decreases a.len(),
{
    if a.len() == 0 {
        Seq::empty()
    } else if named(idx, a.len() - 1) {
        unnamed(a.drop_last(), idx)
    } else {
        unnamed(a.drop_last(), idx).push(a.last())
    }
}

/// The elements at the positions `indexes`, `null` for a position past the end
/// or when `array` is no array; the elements at those positions leave `array`.
pub fn pull_at(array: &mut Value, indexes: Vec<usize>) -> (r: Value)
    ensures
        r@ == Json::Arr(
            Seq::new(
                indexes@.len(),
                |j: int|
                    if old(array)@ is Arr && (indexes@[j] as int) < old(array)@->Arr_0.len() {
                        old(array)@->Arr_0[indexes@[j] as int]
                    } else {
                        Json::Null
                    },
            ),
        ),
        old(array)@ is Arr ==> final(array)@ == Json::Arr(unnamed(old(array)@->Arr_0, indexes@)),
        !(old(array)@ is Arr) ==> final(array)@ == old(array)@,
{
    broadcast use group_value_views;

    let ghost a0 = array@;
    let mut pulled: Vec<Value> = Vec::new();
    let mut rest: Vec<Value> = Vec::new();
    let mut is_array = false;
    match &*array {
        Value::Array(a) => {
            is_array = true;
            let ghost s = seq_json(a@);
            let mut marks: Vec<bool> = Vec::new();
            while marks.len() < a.len()
                invariant
                    marks@.len() <= a@.len(),
                    forall|k: int| 0 <= k < marks@.len() ==> !#[trigger] marks@[k],
                decreases a@.len() - marks@.len(),
            {
                marks.push(false);
            }
            let mut j: usize = 0;
            while j < indexes.len()
                invariant
                    j <= indexes@.len(),
                    a0 == Json::Arr(s),
                    s == seq_json(a@),
                    marks@.len() == a@.len(),
                    pulled@.len() == j,
                    forall|k: int| 0 <= k < a@.len() ==> (#[trigger] marks@[k] <==> named(indexes@.subrange(0, j as int), k)),
                    forall|m: int| 0 <= m < j ==> #[trigger] pulled@[m]@ == if (indexes@[m] as int) < s.len() {
                        s[indexes@[m] as int]
                    } else {
                        Json::Null
                    },
                decreases indexes@.len() - j,
            {
                let k = indexes[j];
                if k < a.len() {
                    pulled.push(copy_value(&a[k]));
                    marks.set(k, true);
                } else {
                    pulled.push(Value::Null);
                }
                proof {
                    let ghost p0 = indexes@.subrange(0, j as int);
                    let ghost p1 = indexes@.subrange(0, j + 1);
                    assert(p1 =~= p0.push(k));
                    assert forall|q: int| 0 <= q < a@.len() implies (#[trigger] marks@[q] <==> named(p1, q)) by {
                        if named(p0, q) {
                            let w = choose|w: int| 0 <= w < p0.len() && #[trigger] p0[w] as int == q;
                            assert(p1[w] == p0[w]);
                        }
                        if named(p1, q) {
                            let w = choose|w: int| 0 <= w < p1.len() && #[trigger] p1[w] as int == q;
                            if w < j {
                                assert(p0[w] == p1[w]);
                            }
                        }
                        if q == k {
                            assert(p1[j as int] as int == q);
                        }
                    }
                }
                j = j + 1;
            }
            assert(indexes@.subrange(0, indexes@.len() as int) =~= indexes@);
            let mut i: usize = 0;
            assert(s.subrange(0, 0) =~= Seq::<Json>::empty());
            while i < a.len()
                invariant
                    i <= a@.len(),
                    s == seq_json(a@),
                    marks@.len() == a@.len(),
                    forall|k: int| 0 <= k < a@.len() ==> (#[trigger] marks@[k] <==> named(indexes@, k)),
                    seq_json(rest@) == unnamed(s.subrange(0, i as int), indexes@),
                decreases a@.len() - i,
            {
                assert(s.subrange(0, i + 1).drop_last() =~= s.subrange(0, i as int));
                if !marks[i] {
                    rest.push(copy_value(&a[i]));
                }
                i = i + 1;
            }
            assert(s.subrange(0, a@.len() as int) =~= s);
        },
        _ => {
            let mut j: usize = 0;
            while j < indexes.len()
                invariant
                    j <= indexes@.len(),
                    !(a0 is Arr),
                    pulled@.len() == j,
                    forall|m: int| 0 <= m < j ==> #[trigger] pulled@[m]@ == Json::Null,
                decreases indexes@.len() - j,
            {
                pulled.push(Value::Null);
                j = j + 1;
            }
        },
    }
    if is_array {
        *array = Value::Array(rest);
    }
    let ghost want = Seq::new(
        indexes@.len(),
        |j: int|
            if a0 is Arr && (indexes@[j] as int) < a0->Arr_0.len() {
                a0->Arr_0[indexes@[j] as int]
            } else {
                Json::Null
            },
    );
    assert(seq_json(pulled@) =~= want);
    Value::Array(pulled)
}

} // verus!
