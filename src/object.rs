//! Reading and writing values at a path.

use vstd::prelude::*;
use crate::value::{Json, Value, group_value_views, seq_json, seq_entries, chars_of, char_string, copy_value};
use crate::text::parse_unsigned;
use crate::lang::read_unsigned;
use crate::path::{path_of, path_strings, texts};

verus! {

/// The position of the first entry with key `k`, or `-1` when there is none.
pub open spec fn key_index(e: Seq<(Seq<char>, Json)>, k: Seq<char>) -> int
    decreases e.len(),
{
    if e.len() == 0 {
        -1
    } else if e[0].0 == k {
        0
    } else {
        let r = key_index(e.drop_first(), k);
        if r < 0 {
            -1
        } else {
            r + 1
        }
    }
}

/// The value under key `k`.
pub open spec fn lookup(e: Seq<(Seq<char>, Json)>, k: Seq<char>) -> Option<Json> {
    let i = key_index(e, k);
    if i < 0 {
        None
    } else {
        Some(e[i].1)
    }
}

/// The entries `e` with `k` bound to `v`: the first entry with key `k` is
/// overwritten, or a new entry is appended.
pub open spec fn put(e: Seq<(Seq<char>, Json)>, k: Seq<char>, v: Json) -> Seq<(Seq<char>, Json)> {
    let i = key_index(e, k);
    if i < 0 {
        e.push((k, v))
    } else {
        e.update(i, (k, v))
    }
}

/// The array index that a path segment reads as: a decimal below `usize::MAX`,
/// with an optional `+`.
pub open spec fn index_of_segment(k: Seq<char>) -> Option<int> {
    match parse_unsigned(k) {
        Some(n) => if n < usize::MAX {
            Some(n)
        } else {
            None
        },
        None => None,
    }
}

/// The child that one path segment selects: a character of a string, an element
/// of an array, or an entry of an object.
pub open spec fn get_step(cur: Json, k: Seq<char>) -> Option<Json> {
    match cur {
        Json::Str(s) => match index_of_segment(k) {
            Some(n) => if n < s.len() {
                Some(Json::Str(seq![s[n]]))
            } else {
                None
            },
            None => None,
        },
        Json::Arr(a) => match index_of_segment(k) {
            Some(n) => if n < a.len() {
                Some(a[n])
            } else {
                None
            },
            None => None,
        },
        Json::Obj(o) => lookup(o, k),
        _ => None,
    }
}

/// The value that the segments `p` lead to from `cur`.
pub open spec fn get_path(cur: Json, p: Seq<Seq<char>>) -> Option<Json>
    decreases p.len(),
{
    if p.len() == 0 {
        Some(cur)
    } else {
        match get_step(cur, p[0]) {
            Some(nx) => get_path(nx, p.drop_first()),
            None => None,
        }
    }
}

/// What `get` returns.
pub open spec fn get_json(object: Json, path: Json, default: Json) -> Json {
    let p = path_of(path);
    if p.len() == 0 {
        default
    } else {
        match get_path(object, p) {
            Some(v) => v,
            None => default,
        }
    }
}

/// `n` nulls.
pub open spec fn nulls(n: nat) -> Seq<Json> {
    Seq::new(n, |i: int| Json::Null)
}

/// `a`, padded with nulls to at least `n` elements.
pub open spec fn pad(a: Seq<Json>, n: nat) -> Seq<Json> {
    if a.len() >= n {
        a
    } else {
        a + nulls((n - a.len()) as nat)
    }
}

/// `cur` with the last path segment `k` bound to `v`; none when `cur` is an array
/// and `k` is no index.
pub open spec fn set_last(cur: Json, k: Seq<char>, v: Json) -> Option<Json> {
    match cur {
        Json::Arr(a) => match index_of_segment(k) {
            Some(n) => Some(Json::Arr(pad(a, (n + 1) as nat).update(n, v))),
            None => None,
        },
        Json::Obj(o) => Some(Json::Obj(put(o, k, v))),
        _ => match index_of_segment(k) {
            Some(n) => Some(Json::Arr(nulls(n as nat).push(v))),
            None => Some(Json::Obj(seq![(k, v)])),
        },
    }
}

/// The container that `set` creates for a missing child, given the segments
/// still to follow: an array when the next segment is an index, else an object.
pub open spec fn fresh_container(rest: Seq<Seq<char>>) -> Json {
    if rest.len() >= 1 && index_of_segment(rest[0]) is Some {
        Json::Arr(Seq::empty())
    } else {
        Json::Obj(Seq::empty())
    }
}

/// `cur` with the value at the segments `p` set to `v`, creating containers on
/// the way and overwriting what is no container; none when an array on the way
/// meets a segment that is no index.
pub open spec fn set_at(cur: Json, p: Seq<Seq<char>>, v: Json) -> Option<Json>
    decreases p.len(),
{
    if p.len() <= 1 {
        if p.len() == 1 {
            set_last(cur, p[0], v)
        } else {
            Some(v)
        }
    } else {
        let k = p[0];
        let rest = p.drop_first();
        match cur {
            Json::Arr(a) => match index_of_segment(k) {
                Some(i) => {
                    let a2 = pad(a, (i + 1) as nat);
                    match set_at(a2[i], rest, v) {
                        Some(c) => Some(Json::Arr(a2.update(i, c))),
                        None => None,
                    }
                },
                None => None,
            },
            Json::Obj(o) => {
                let child = match lookup(o, k) {
                    Some(c) => c,
                    None => fresh_container(rest),
                };
                match set_at(child, rest, v) {
                    Some(c) => Some(Json::Obj(put(o, k, c))),
                    None => None,
                }
            },
            _ => match index_of_segment(k) {
                Some(i) => match set_at(Json::Null, rest, v) {
                    Some(c) => Some(Json::Arr(nulls(i as nat).push(c))),
                    None => None,
                },
                None => match set_at(fresh_container(rest), rest, v) {
                    Some(c) => Some(Json::Obj(seq![(k, c)])),
                    None => None,
                },
            },
        }
    }
}

/// What `set` returns: the object unchanged when the path is empty or `set`
/// meets an array with a segment that is no index.
pub open spec fn set_json(object: Json, path: Json, v: Json) -> Json {
    let p = path_of(path);
    if p.len() == 0 {
        object
    } else {
        match set_at(object, p, v) {
            Some(r) => r,
            None => object,
        }
    }
}

pub proof fn lemma_key_index(e: Seq<(Seq<char>, Json)>, k: Seq<char>, i: int)
    requires
        0 <= i <= e.len(),
        forall|j: int| 0 <= j < i ==> e[j].0 != k,
        i == e.len() || e[i].0 == k,
    ensures
        key_index(e, k) == if i == e.len() {
            -1
        } else {
            i
        },
    decreases i,
{
    if i > 0 {
        lemma_key_index(e.drop_first(), k, i - 1);
    }
}

pub proof fn lemma_key_index_bounds(e: Seq<(Seq<char>, Json)>, k: Seq<char>)
    ensures
        -1 <= key_index(e, k) < e.len(),
        key_index(e, k) >= 0 ==> e[key_index(e, k)].0 == k,
    decreases e.len(),
{
    if e.len() > 0 {
        lemma_key_index_bounds(e.drop_first(), k);
    }
}

/// What `key_index` says of the entries before and at the position it gives.
pub proof fn lemma_key_index_facts(e: Seq<(Seq<char>, Json)>, k: Seq<char>)
    ensures
        key_index(e, k) < 0 ==> key_index(e, k) == -1 && forall|j: int| 0 <= j < e.len() ==> e[j].0 != k,
        key_index(e, k) >= 0 ==> key_index(e, k) < e.len() && e[key_index(e, k)].0 == k && forall|j: int|
            0 <= j < key_index(e, k) ==> e[j].0 != k,
    decreases e.len(),
{
    if e.len() > 0 {
        lemma_key_index_facts(e.drop_first(), k);
        assert(forall|j: int| 0 < j < e.len() ==> e[j] == e.drop_first()[j - 1]);
    }
}

/// The position of the first entry of `entries` with key `k`.
pub fn find_key(entries: &Vec<(String, Value)>, k: &String) -> (r: Option<usize>)
    ensures
        r matches Some(i) ==> key_index(seq_entries(entries@), k@) == i && i < entries@.len(),
        r is None ==> key_index(seq_entries(entries@), k@) == -1,
{
    let ghost e = seq_entries(entries@);
    let mut i: usize = 0;
    while i < entries.len()
        invariant
            i <= entries@.len(),
            e == seq_entries(entries@),
            forall|j: int| 0 <= j < i ==> e[j].0 != k@,
        decreases entries@.len() - i,
    {
        if entries[i].0 == *k {
            proof {
                lemma_key_index(e, k@, i as int);
            }
            return Some(i);
        }
        i = i + 1;
    }
    proof {
        lemma_key_index(e, k@, i as int);
    }
    None
}

/// The array index that `k` reads as.
fn segment_index(k: &String) -> (r: Option<usize>)
    ensures
        r matches Some(n) ==> index_of_segment(k@) == Some(n as int) && n < usize::MAX,
        r is None ==> index_of_segment(k@) is None,
{
    let cs = chars_of(k);
    match read_unsigned(&cs) {
        Some(n) => if n < usize::MAX as u64 {
            Some(n as usize)
        } else {
            None
        },
        None => None,
    }
}

/// The child of `cur` that the segment `k` selects.
fn get_child(cur: &Value, k: &String) -> (r: Option<Value>)
    ensures
        r matches Some(c) ==> get_step(cur@, k@) == Some(c@),
        r is None ==> get_step(cur@, k@) is None,
{
    broadcast use group_value_views;

    match cur {
        Value::String(s) => match segment_index(k) {
            Some(n) => {
                let cs = chars_of(s);
                if n < cs.len() {
                    let t = char_string(cs[n]);
                    assert(cur@ == Json::Str(s@));
                    assert(Value::String(t)@ == Json::Str(seq![s@[n as int]]));
                    Some(Value::String(t))
                } else {
                    None
                }
            },
            None => None,
        },
        Value::Array(a) => match segment_index(k) {
            Some(n) => if n < a.len() {
                Some(copy_value(&a[n]))
            } else {
                None
            },
            None => None,
        },
        Value::Object(o) => match find_key(o, k) {
            Some(i) => Some(copy_value(&o[i].1)),
            None => None,
        },
        _ => None,
    }
}

/// The value at `path` in `object`, or `default` when the path is empty or
/// leads nowhere.
pub fn get(object: Value, path: Value, default: Value) -> (r: Value)
    ensures
        r@ == get_json(object@, path@, default@),
{
    let p = path_strings(&path);
    if p.len() == 0 {
        return default;
    }
    let ghost ps = texts(p@);
    let mut cur = object;
    let mut i: usize = 0;
    assert(ps.subrange(0, ps.len() as int) =~= ps);
    while i < p.len()
        invariant
            i <= p@.len(),
            ps == texts(p@),
            ps == path_of(path@),
            ps.len() > 0,
            get_path(object@, ps) == get_path(cur@, ps.subrange(i as int, ps.len() as int)),
        decreases p@.len() - i,
    {
        let ghost rest = ps.subrange(i as int, ps.len() as int);
        assert(rest.drop_first() =~= ps.subrange(i + 1, ps.len() as int));
        assert(rest[0] == p@[i as int]@);
        match get_child(&cur, &p[i]) {
            Some(nx) => {
                cur = nx;
            },
            None => {
                return default;
            },
        }
        i = i + 1;
    }
    cur
}


/// The model of an optional value.
pub open spec fn opt_json(r: Option<Value>) -> Option<Json> {
    match r {
        Some(v) => Some(v@),
        None => None,
    }
}

proof fn lemma_seq_json_update(s: Seq<Value>, i: int, x: Value)
    requires
        0 <= i < s.len(),
    ensures
        seq_json(s.update(i, x)) == seq_json(s).update(i, x@),
{
    assert(seq_json(s.update(i, x)) =~= seq_json(s).update(i, x@));
}

proof fn lemma_seq_entries_update(s: Seq<(String, Value)>, i: int, x: (String, Value))
    requires
        0 <= i < s.len(),
    ensures
        seq_entries(s.update(i, x)) == seq_entries(s).update(i, (x.0@, x.1@)),
{
    assert(seq_entries(s.update(i, x)) =~= seq_entries(s).update(i, (x.0@, x.1@)));
}

/// Appends nulls to `a` until it has at least `n` elements.
fn pad_nulls(a: &mut Vec<Value>, n: usize)
    ensures
        seq_json(final(a)@) == pad(seq_json(old(a)@), n as nat),
        final(a)@.len() == pad(seq_json(old(a)@), n as nat).len(),
{
    broadcast use group_value_views;

    let ghost a0 = seq_json(a@);
    if a.len() >= n {
        return;
    }
    while a.len() < n
        invariant
            a0.len() < n,
            a@.len() <= n,
            a@.len() >= a0.len(),
            seq_json(a@) =~= a0 + nulls((a@.len() - a0.len()) as nat),
        decreases n - a@.len(),
    {
        let ghost r0 = a@;
        a.push(Value::Null);
        assert(seq_json(a@) == seq_json(r0).push(Json::Null));
        assert(seq_json(a@) =~= a0 + nulls((a@.len() - a0.len()) as nat));
    }
}

/// `n` nulls followed by `v`.
fn nulls_then(n: usize, v: Value) -> (r: Vec<Value>)
    ensures
        seq_json(r@) == nulls(n as nat).push(v@),
{
    broadcast use group_value_views;

    let mut r: Vec<Value> = Vec::new();
    while r.len() < n
        invariant
            r@.len() <= n,
            seq_json(r@) =~= nulls(r@.len()),
        decreases n - r@.len(),
    {
        let ghost r0 = r@;
        r.push(Value::Null);
        assert(seq_json(r@) == seq_json(r0).push(Json::Null));
        assert(seq_json(r@) =~= nulls(r@.len()));
    }
    r.push(v);
    r
}

/// `cur` with the last segment `k` bound to `v`.
fn set_last_exec(cur: Value, k: &String, v: Value) -> (r: Option<Value>)
    ensures
        opt_json(r) == set_last(cur@, k@, v@),
{
    broadcast use group_value_views;

    match cur {
        Value::Array(mut a) => match segment_index(k) {
            Some(n) => {
                let ghost a0 = seq_json(a@);
                if n < a.len() {
                    proof {
                        lemma_seq_json_update(a@, n as int, v);
                    }
                    a[n] = v;
                } else {
                    pad_nulls(&mut a, n);
                    proof {
                        lemma_seq_json_push_pad(a0, n as nat, v@);
                    }
                    a.push(v);
                }
                Some(Value::Array(a))
            },
            None => None,
        },
        Value::Object(mut o) => {
            match find_key(&o, k) {
                Some(i) => {
                    let x = (k.clone(), v);
                    proof {
                        lemma_seq_entries_update(o@, i as int, x);
                    }
                    o[i] = x;
                },
                None => {
                    o.push((k.clone(), v));
                },
            }
            Some(Value::Object(o))
        },
        _ => match segment_index(k) {
            Some(n) => Some(Value::Array(nulls_then(n, v))),
            None => {
                let mut o: Vec<(String, Value)> = Vec::new();
                o.push((k.clone(), v));
                assert(seq_entries(o@) =~= seq![(k@, v@)]);
                Some(Value::Object(o))
            },
        },
    }
}

proof fn lemma_seq_json_push_pad(a0: Seq<Json>, n: nat, x: Json)
    requires
        a0.len() <= n,
    ensures
        pad(a0, n).push(x) == pad(a0, n + 1).update(n as int, x),
{
    assert(pad(a0, n).push(x) =~= pad(a0, n + 1).update(n as int, x));
}

/// `cur` with the value at the segments `p[i..]` set to `v`.
fn set_at_exec(cur: Value, p: &Vec<String>, i: usize, v: Value) -> (r: Option<Value>)
    requires
        i < p@.len(),
    ensures
        opt_json(r) == set_at(cur@, texts(p@).subrange(i as int, p@.len() as int), v@),
    decreases p@.len() - i,
{
    broadcast use group_value_views;

    let ghost ps = texts(p@).subrange(i as int, p@.len() as int);
    assert(ps[0] == p@[i as int]@);
    if i == p.len() - 1 {
        return set_last_exec(cur, &p[i], v);
    }
    let ghost rest = ps.drop_first();
    assert(rest =~= texts(p@).subrange(i + 1, p@.len() as int));
    let k = &p[i];
    match cur {
        Value::Array(mut a) => match segment_index(k) {
            Some(n) => {
                pad_nulls(&mut a, n + 1);
                let ghost a2 = seq_json(a@);
                let mut child = Value::Null;
                std::mem::swap(&mut child, &mut a[n]);
                assert(child@ == a2[n as int]);
                match set_at_exec(child, p, i + 1, v) {
                    Some(c) => {
                        let ghost a1 = a@;
                        proof {
                            lemma_seq_json_update(a1, n as int, c);
                            assert(seq_json(a1) =~= a2.update(n as int, Json::Null));
                            assert(a2.update(n as int, Json::Null).update(n as int, c@) =~= a2.update(n as int, c@));
                        }
                        a[n] = c;
                        Some(Value::Array(a))
                    },
                    None => None,
                }
            },
            None => None,
        },
        Value::Object(mut o) => {
            let ghost e0 = seq_entries(o@);
            match find_key(&o, k) {
                Some(idx) => {
                    let mut child = Value::Null;
                    std::mem::swap(&mut child, &mut o[idx].1);
                    assert(child@ == e0[idx as int].1);
                    match set_at_exec(child, p, i + 1, v) {
                        Some(c) => {
                            let x = (k.clone(), c);
                            proof {
                                lemma_seq_entries_update(o@, idx as int, x);
                                assert(seq_entries(o@) =~= e0.update(idx as int, (e0[idx as int].0, Json::Null)));
                                assert(e0.update(idx as int, (e0[idx as int].0, Json::Null)).update(idx as int, (x.0@, x.1@)) =~= e0.update(idx as int, (k@, c@)));
                            }
                            o[idx] = x;
                            Some(Value::Object(o))
                        },
                        None => None,
                    }
                },
                None => {
                    let fresh = fresh_value(p, i + 1);
                    assert(fresh@ == fresh_container(rest));
                    match set_at_exec(fresh, p, i + 1, v) {
                        Some(c) => {
                            o.push((k.clone(), c));
                            Some(Value::Object(o))
                        },
                        None => None,
                    }
                },
            }
        },
        _ => match segment_index(k) {
            Some(n) => match set_at_exec(Value::Null, p, i + 1, v) {
                Some(c) => Some(Value::Array(nulls_then(n, c))),
                None => None,
            },
            None => {
                let fresh = fresh_value(p, i + 1);
                assert(rest[0] == p@[i + 1]@);
                match set_at_exec(fresh, p, i + 1, v) {
                    Some(c) => {
                        let mut o: Vec<(String, Value)> = Vec::new();
                        o.push((k.clone(), c));
                        assert(seq_entries(o@) =~= seq![(k@, c@)]);
                        Some(Value::Object(o))
                    },
                    None => None,
                }
            },
        },
    }
}

/// The container that `set` creates for a missing child when `p[j]` is the
/// next segment.
fn fresh_value(p: &Vec<String>, j: usize) -> (r: Value)
    requires
        j < p@.len(),
    ensures
        r@ == fresh_container(texts(p@).subrange(j as int, p@.len() as int)),
{
    broadcast use group_value_views;

    assert(texts(p@).subrange(j as int, p@.len() as int)[0] == p@[j as int]@);
    if segment_index(&p[j]).is_some() {
        let e: Vec<Value> = Vec::new();
        assert(seq_json(e@) =~= Seq::<Json>::empty());
        Value::Array(e)
    } else {
        let e: Vec<(String, Value)> = Vec::new();
        assert(seq_entries(e@) =~= Seq::<(Seq<char>, Json)>::empty());
        Value::Object(e)
    }
}

/// `object` with the value at `path` set to `value`: containers are created on
/// the way and what is no container is overwritten; `object` comes back unchanged
/// when the path is empty or meets an array with a segment that is no index.
pub fn set(object: Value, path: Value, value: Value) -> (r: Value)
    ensures
        r@ == set_json(object@, path@, value@),
{
    let p = path_strings(&path);
    if p.len() == 0 {
        return object;
    }
    assert(texts(p@).subrange(0, p@.len() as int) =~= texts(p@));
    let keep = copy_value(&object);
    match set_at_exec(object, &p, 0, value) {
        Some(r) => r,
        None => keep,
    }
}

} // verus!
