//! The invariant of JSON values, unique object keys at every level, and the
//! functions that keep it.

use vstd::prelude::*;
use crate::value::Json;
use crate::path::path_of;
use crate::collect::{pairs_entries, pair_of, remove_key};
use crate::merge::{merge_json, merge_entries, merge_items, same_container};
use crate::object::{key_index, put, set_at, set_json, pad, nulls, fresh_container, lookup, index_of_segment, lemma_key_index_facts};

verus! {

/// No two entries share a key.
pub open spec fn keys_unique(e: Seq<(Seq<char>, Json)>) -> bool {
    forall|i: int, j: int| 0 <= i < j < e.len() ==> e[i].0 != e[j].0
}

/// The invariant of the JSON model: the keys of every object, at every level,
/// are unique.
pub open spec fn json_wf(j: Json) -> bool
    decreases j, 1nat,
{
    match j {
        Json::Arr(a) => items_wf(a),
        Json::Obj(e) => keys_unique(e) && entries_wf(e),
        _ => true,
    }
}

/// Every element of `a` is well formed.
pub open spec fn items_wf(a: Seq<Json>) -> bool
    decreases a, 0nat,
{
    if a.len() == 0 {
        true
    } else {
        items_wf(a.drop_last()) && json_wf(a.last())
    }
}

/// Every value of `e` is well formed.
pub open spec fn entries_wf(e: Seq<(Seq<char>, Json)>) -> bool
    decreases e, 0nat,
{
    if e.len() == 0 {
        true
    } else {
        entries_wf(e.drop_last()) && json_wf(e.last().1)
    }
}

pub proof fn lemma_items_wf(a: Seq<Json>)
    ensures
        items_wf(a) <==> forall|i: int| 0 <= i < a.len() ==> json_wf(#[trigger] a[i]),
    decreases a.len(),
{
    if a.len() > 0 {
        lemma_items_wf(a.drop_last());
        assert(forall|i: int| 0 <= i < a.len() - 1 ==> a.drop_last()[i] == a[i]);
        if forall|i: int| 0 <= i < a.len() ==> json_wf(#[trigger] a[i]) {
            assert forall|i: int| 0 <= i < a.drop_last().len() implies json_wf(#[trigger] a.drop_last()[i]) by {
                assert(json_wf(a[i]));
            }
        }
    }
}

pub proof fn lemma_entries_wf(e: Seq<(Seq<char>, Json)>)
    ensures
        entries_wf(e) <==> forall|i: int| 0 <= i < e.len() ==> json_wf(#[trigger] e[i].1),
    decreases e.len(),
{
    if e.len() > 0 {
        lemma_entries_wf(e.drop_last());
        assert(forall|i: int| 0 <= i < e.len() - 1 ==> e.drop_last()[i] == e[i]);
        if forall|i: int| 0 <= i < e.len() ==> json_wf(#[trigger] e[i].1) {
            assert forall|i: int| 0 <= i < e.drop_last().len() implies json_wf(#[trigger] e.drop_last()[i].1) by {
                assert(json_wf(e[i].1));
            }
        }
    }
}

/// Binding a key keeps the keys unique and every value well formed.
pub proof fn lemma_put_wf(e: Seq<(Seq<char>, Json)>, k: Seq<char>, v: Json)
    requires
        json_wf(Json::Obj(e)),
        json_wf(v),
    ensures
        json_wf(Json::Obj(put(e, k, v))),
{
    lemma_key_index_facts(e, k);
    lemma_entries_wf(e);
    let e2 = put(e, k, v);
    lemma_entries_wf(e2);
    assert forall|i: int| 0 <= i < e2.len() implies json_wf(#[trigger] e2[i].1) by {
        if i < e.len() && e2[i] == e[i] {
            assert(json_wf(e[i].1));
        }
    }
}

proof fn lemma_arr_elem_wf(a: Seq<Json>, k: int)
    requires
        json_wf(Json::Arr(a)),
        0 <= k < a.len(),
    ensures
        json_wf(a[k]),
{
    lemma_items_wf(a);
}

proof fn lemma_nulls_wf(n: nat, x: Json)
    requires
        json_wf(x),
    ensures
        json_wf(Json::Arr(nulls(n).push(x))),
{
    let a = nulls(n).push(x);
    lemma_items_wf(a);
    assert forall|i: int| 0 <= i < a.len() implies json_wf(#[trigger] a[i]) by {
        if i < n {
            assert(a[i] == Json::Null);
        }
    }
}

proof fn lemma_pad_update_wf(a: Seq<Json>, n: nat, i: int, x: Json)
    requires
        json_wf(Json::Arr(a)),
        json_wf(x),
        0 <= i < pad(a, n).len(),
    ensures
        json_wf(Json::Arr(pad(a, n).update(i, x))),
        json_wf(pad(a, n)[i]),
{
    let p = pad(a, n);
    lemma_items_wf(p);
    assert forall|j: int| 0 <= j < p.len() implies json_wf(#[trigger] p[j]) by {
        if j < a.len() {
            assert(p[j] == a[j]);
            lemma_arr_elem_wf(a, j);
        } else {
            assert((a + nulls((n - a.len()) as nat))[j] == nulls((n - a.len()) as nat)[j - a.len()]);
            assert(p[j] == Json::Null);
        }
    }
    let u = p.update(i, x);
    lemma_items_wf(u);
    assert forall|j: int| 0 <= j < u.len() implies json_wf(#[trigger] u[j]) by {
        if j != i {
            assert(u[j] == p[j]);
        }
    }
}

proof fn lemma_set_at_wf(cur: Json, p: Seq<Seq<char>>, v: Json)
    requires
        json_wf(cur),
        json_wf(v),
        set_at(cur, p, v) is Some,
    ensures
        json_wf(set_at(cur, p, v)->Some_0),
    decreases p.len(),
{
    if p.len() == 0 {
    } else if p.len() == 1 {
        let k = p[0];
        match cur {
            Json::Arr(a) => {
                let n = index_of_segment(k)->Some_0;
                lemma_pad_update_wf(a, (n + 1) as nat, n, v);
            },
            Json::Obj(o) => {
                lemma_put_wf(o, k, v);
            },
            _ => match index_of_segment(k) {
                Some(n) => {
                    lemma_nulls_wf(n as nat, v);
                },
                None => {
                    assert(keys_unique(seq![(k, v)]));
                    lemma_entries_wf(seq![(k, v)]);
                },
            },
        }
    } else {
        let k = p[0];
        let rest = p.drop_first();
        match cur {
            Json::Arr(a) => {
                let i = index_of_segment(k)->Some_0;
                let a2 = pad(a, (i + 1) as nat);
                lemma_pad_update_wf(a, (i + 1) as nat, i, Json::Null);
                lemma_set_at_wf(a2[i], rest, v);
                lemma_pad_update_wf(a, (i + 1) as nat, i, set_at(a2[i], rest, v)->Some_0);
            },
            Json::Obj(o) => {
                let child = match lookup(o, k) {
                    Some(c) => c,
                    None => fresh_container(rest),
                };
                lemma_key_index_facts(o, k);
                lemma_entries_wf(o);
                if lookup(o, k) is None {
                    lemma_items_wf(Seq::<Json>::empty());
                    lemma_entries_wf(Seq::<(Seq<char>, Json)>::empty());
                    assert(json_wf(fresh_container(rest)));
                } else {
                    assert(json_wf(o[key_index(o, k)].1));
                }
                lemma_set_at_wf(child, rest, v);
                lemma_put_wf(o, k, set_at(child, rest, v)->Some_0);
            },
            _ => match index_of_segment(k) {
                Some(i) => {
                    lemma_set_at_wf(Json::Null, rest, v);
                    lemma_nulls_wf(i as nat, set_at(Json::Null, rest, v)->Some_0);
                },
                None => {
                    lemma_items_wf(Seq::<Json>::empty());
                    lemma_entries_wf(Seq::<(Seq<char>, Json)>::empty());
                    assert(json_wf(fresh_container(rest)));
                    lemma_set_at_wf(fresh_container(rest), rest, v);
                    let c = set_at(fresh_container(rest), rest, v)->Some_0;
                    assert(keys_unique(seq![(k, c)]));
                    lemma_entries_wf(seq![(k, c)]);
                },
            },
        }
    }
}

/// `set` keeps a well-formed value well formed when the value it sets is.
pub proof fn lemma_set_keeps_wf(object: Json, path: Json, v: Json)
    requires
        json_wf(object),
        json_wf(v),
    ensures
        json_wf(set_json(object, path, v)),
{
    let p = path_of(path);
    if p.len() > 0 && set_at(object, p, v) is Some {
        lemma_set_at_wf(object, p, v);
    }
}


proof fn lemma_merge_json_wf(o: Json, s: Json)
    requires
        json_wf(o),
        json_wf(s),
    ensures
        json_wf(merge_json(o, s)),
    decreases s, 1nat,
{
    match s {
        Json::Obj(se) => match o {
            Json::Obj(oe) => {
                lemma_merge_entries_wf(oe, se);
            },
            _ => {},
        },
        Json::Arr(sa) => match o {
            Json::Arr(oa) => {
                lemma_merge_items_wf(oa, sa);
            },
            _ => {},
        },
        _ => {},
    }
}

proof fn lemma_merge_entries_wf(oe: Seq<(Seq<char>, Json)>, se: Seq<(Seq<char>, Json)>)
    requires
        json_wf(Json::Obj(oe)),
        json_wf(Json::Obj(se)),
    ensures
        json_wf(Json::Obj(merge_entries(oe, se))),
    decreases se, 0nat,
{
    if se.len() > 0 {
        let prefix = se.drop_last();
        assert(keys_unique(prefix));
        lemma_merge_entries_wf(oe, prefix);
        let acc = merge_entries(oe, prefix);
        let k = se.last().0;
        let sv = se.last().1;
        lemma_key_index_facts(acc, k);
        lemma_entries_wf(acc);
        let i = key_index(acc, k);
        if i < 0 {
            lemma_put_wf(acc, k, sv);
            assert(merge_entries(oe, se) == put(acc, k, sv));
        } else {
            let ov = acc[i].1;
            assert(json_wf(ov));
            if same_container(ov, sv) {
                lemma_merge_json_wf(ov, sv);
                lemma_put_wf(acc, k, merge_json(ov, sv));
            } else {
                lemma_put_wf(acc, k, sv);
            }
        }
    }
}

proof fn lemma_merge_items_wf(oa: Seq<Json>, sa: Seq<Json>)
    requires
        json_wf(Json::Arr(oa)),
        json_wf(Json::Arr(sa)),
    ensures
        json_wf(Json::Arr(merge_items(oa, sa))),
    decreases sa, 0nat,
{
    broadcast use vstd::seq::axiom_seq_index_decreases;
    {
        lemma_items_wf(oa);
        lemma_items_wf(sa);
        let m = merge_items(oa, sa);
        assert forall|i: int| 0 <= i < m.len() implies json_wf(#[trigger] m[i]) by {
            if i < sa.len() && i < oa.len() && same_container(oa[i], sa[i]) {
                lemma_merge_json_wf(oa[i], sa[i]);
            }
        }
        lemma_items_wf(m);
    }
}

/// `merge` keeps well-formed values well formed.
pub proof fn lemma_merge_keeps_wf(object: Json, source: Json)
    requires
        json_wf(object),
        json_wf(source),
    ensures
        json_wf(merge_json(object, source)),
{
    lemma_merge_json_wf(object, source);
}


proof fn lemma_remove_key_wf(e: Seq<(Seq<char>, Json)>, k: Seq<char>)
    requires
        json_wf(Json::Obj(e)),
    ensures
        json_wf(Json::Obj(remove_key(e, k))),
{
    lemma_key_index_facts(e, k);
    let i = key_index(e, k);
    if i >= 0 {
        let e2 = e.remove(i);
        lemma_entries_wf(e);
        lemma_entries_wf(e2);
        assert forall|a: int, b: int| 0 <= a < b < e2.len() implies e2[a].0 != e2[b].0 by {
            let a0 = if a < i { a } else { a + 1 };
            let b0 = if b < i { b } else { b + 1 };
            assert(e2[a] == e[a0]);
            assert(e2[b] == e[b0]);
        }
        assert forall|a: int| 0 <= a < e2.len() implies json_wf(#[trigger] e2[a].1) by {
            let a0 = if a < i { a } else { a + 1 };
            assert(e2[a] == e[a0]);
        }
    }
}

proof fn lemma_pairs_entries_wf(a: Seq<Json>)
    requires
        json_wf(Json::Arr(a)),
    ensures
        json_wf(Json::Obj(pairs_entries(a))),
    decreases a.len(),
{
    if a.len() == 0 {
        lemma_entries_wf(Seq::<(Seq<char>, Json)>::empty());
    } else {
        lemma_pairs_entries_wf(a.drop_last());
        let e = pairs_entries(a.drop_last());
        let item = a.last();
        lemma_items_wf(a);
        assert(json_wf(item));
        match pair_of(item) {
            None => {},
            Some((k, Some(v))) => {
                if let Json::Arr(inner) = item {
                    lemma_items_wf(inner);
                    assert(json_wf(inner[1]));
                }
                lemma_put_wf(e, k, v);
            },
            Some((k, None)) => {
                lemma_remove_key_wf(e, k);
            },
        }
    }
}

/// `from_pairs` builds a well-formed object from well-formed input.
pub proof fn lemma_from_pairs_wf(a: Seq<Json>)
    requires
        json_wf(Json::Arr(a)),
    ensures
        json_wf(Json::Obj(pairs_entries(a))),
{
    lemma_pairs_entries_wf(a);
}

} // verus!
