//! Deep merge of objects and arrays.

use vstd::prelude::*;
use crate::value::{Json, Value, group_value_views, seq_json, seq_entries, copy_value};
use crate::object::{key_index, find_key, lemma_key_index_bounds};

verus! {

/// Whether `a` and `b` are containers of the same kind, which merge recursively.
pub open spec fn same_container(a: Json, b: Json) -> bool {
    (a is Obj && b is Obj) || (a is Arr && b is Arr)
}

/// The deep merge of `s` into `o`: two objects merge key by key, two arrays
/// position by position; any other pair gives `o` unchanged.
pub open spec fn merge_json(o: Json, s: Json) -> Json
    decreases s, 1nat,
{
    match s {
        Json::Obj(se) => match o {
            Json::Obj(oe) => Json::Obj(merge_entries(oe, se)),
            _ => o,
        },
        Json::Arr(sa) => match o {
            Json::Arr(oa) => Json::Arr(merge_items(oa, sa)),
            _ => o,
        },
        _ => o,
    }
}

/// The entries `oe` with the entries `se` merged in, in order: a missing key is
/// appended; a present one takes the merge of both values when they are
/// containers of one kind, else the source's value.
pub open spec fn merge_entries(oe: Seq<(Seq<char>, Json)>, se: Seq<(Seq<char>, Json)>) -> Seq<
    (Seq<char>, Json),
>
    decreases se, 0nat,
{
    if se.len() == 0 {
        oe
    } else {
        let acc = merge_entries(oe, se.drop_last());
        let k = se.last().0;
        let sv = se.last().1;
        let i = key_index(acc, k);
        if i < 0 {
            acc.push((k, sv))
        } else {
            let ov = acc[i].1;
            acc.update(
                i,
                (
                    k,
                    if same_container(ov, sv) {
                        merge_json(ov, sv)
                    } else {
                        sv
                    },
                ),
            )
        }
    }
}

/// The positional merge of the array `sa` onto the array `oa`: the result is as
/// long as the longer of the two; a position that both hold takes the merge of
/// both elements when they are containers of one kind, else the source's
/// element; a position that only one holds keeps that element.
pub open spec fn merge_items(oa: Seq<Json>, sa: Seq<Json>) -> Seq<Json>
    decreases sa, 0nat,
{
    Seq::new(
        if oa.len() > sa.len() {
            oa.len()
        } else {
            sa.len()
        },
        |i: int|
            if 0 <= i < sa.len() {
                if i < oa.len() && same_container(oa[i], sa[i]) {
                    merge_json(oa[i], sa[i])
                } else {
                    sa[i]
                }
            } else if 0 <= i < oa.len() {
                oa[i]
            } else {
                Json::Null
            },
    )
}

fn same_kind(a: &Value, b: &Value) -> (r: bool)
    ensures
        r == same_container(a@, b@),
{
    broadcast use group_value_views;

    match (a, b) {
        (Value::Object(_), Value::Object(_)) => true,
        (Value::Array(_), Value::Array(_)) => true,
        _ => false,
    }
}

fn merge_values(o: Value, s: &Value) -> (r: Value)
    ensures
        r@ == merge_json(o@, s@),
    decreases s, 1nat,
{
    broadcast use group_value_views;

    match s {
        Value::Object(se) => match o {
            Value::Object(oe) => {
                let r = merge_object_entries(oe, se);
                Value::Object(r)
            },
            _ => o,
        },
        Value::Array(sa) => match o {
            Value::Array(oa) => {
                let r = merge_array_items(oa, sa);
                Value::Array(r)
            },
            _ => o,
        },
        _ => o,
    }
}

fn merge_object_entries(oe: Vec<(String, Value)>, se: &Vec<(String, Value)>) -> (r: Vec<(String, Value)>)
    ensures
        seq_entries(r@) == merge_entries(seq_entries(oe@), seq_entries(se@)),
    decreases se, 0nat,
{
    broadcast use group_value_views;
    broadcast use vstd::std_specs::vec::axiom_vec_index_decreases;

    let ghost e0 = seq_entries(oe@);
    let ghost ss = seq_entries(se@);
    let mut acc = oe;
    let mut j: usize = 0;
    assert(ss.subrange(0, 0) =~= Seq::<(Seq<char>, Json)>::empty());
    while j < se.len()
        invariant
            j <= se@.len(),
            ss == seq_entries(se@),
            seq_entries(acc@) == merge_entries(e0, ss.subrange(0, j as int)),
        decreases se@.len() - j,
    {
        let ghost sub = ss.subrange(0, j + 1);
        assert(sub.drop_last() =~= ss.subrange(0, j as int));
        assert(sub.last() == ss[j as int]);
        let ghost acc0 = seq_entries(acc@);
        let k = &se[j].0;
        match find_key(&acc, k) {
            None => {
                let x = (k.clone(), copy_value(&se[j].1));
                acc.push(x);
            },
            Some(i) => {
                proof {
                    lemma_key_index_bounds(acc0, k@);
                }
                let mut ov = Value::Null;
                std::mem::swap(&mut ov, &mut acc[i].1);
                assert(ov@ == acc0[i as int].1);
                let nv = if same_kind(&ov, &se[j].1) {
                    assert(decreases_to!(*se => se@[j as int]));
                    merge_values(ov, &se[j].1)
                } else {
                    copy_value(&se[j].1)
                };
                let x = (k.clone(), nv);
                proof {
                    assert(seq_entries(acc@.update(i as int, x)) =~= acc0.update(i as int, (k@, nv@)));
                }
                acc[i] = x;
            },
        }
        j = j + 1;
    }
    assert(ss.subrange(0, se@.len() as int) =~= ss);
    acc
}

fn merge_array_items(oa: Vec<Value>, sa: &Vec<Value>) -> (r: Vec<Value>)
    ensures
        seq_json(r@) == merge_items(seq_json(oa@), seq_json(sa@)),
    decreases sa, 0nat,
{
    broadcast use group_value_views;
    broadcast use vstd::std_specs::vec::axiom_vec_index_decreases;

    let ghost o0 = seq_json(oa@);
    let ghost s0 = seq_json(sa@);
    let ghost m = merge_items(o0, s0);
    let n = if oa.len() > sa.len() { oa.len() } else { sa.len() };
    let mut olds = oa;
    let mut r: Vec<Value> = Vec::new();
    let mut i: usize = 0;
    while i < n
        invariant
            i <= n,
            n == m.len(),
            s0 == seq_json(sa@),
            olds@.len() == o0.len(),
            m == merge_items(o0, s0),
            forall|j: int| i <= j < o0.len() ==> #[trigger] olds@[j]@ == o0[j],
            r@.len() == i,
            forall|j: int| 0 <= j < i ==> #[trigger] r@[j]@ == m[j],
        decreases n - i,
    {
        let nv = if i < olds.len() {
            let mut ov = Value::Null;
            std::mem::swap(&mut ov, &mut olds[i]);
            assert(ov@ == o0[i as int]);
            if i >= sa.len() {
                ov
            } else if same_kind(&ov, &sa[i]) {
                assert(decreases_to!(*sa => sa@[i as int]));
                merge_values(ov, &sa[i])
            } else {
                copy_value(&sa[i])
            }
        } else {
            copy_value(&sa[i])
        };
        assert(nv@ == m[i as int]);
        r.push(nv);
        i = i + 1;
    }
    assert(seq_json(r@) =~= m);
    r
}

/// Deep-merges `source` into `object`. Two objects merge key by key, two arrays
/// position by position; for any other pair `object` comes back unchanged.
pub fn merge(object: Value, source: Value) -> (r: Value)
    ensures
        r@ == merge_json(object@, source@),
{
    merge_values(object, &source)
}

} // verus!
