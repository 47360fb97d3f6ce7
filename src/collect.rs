//! Joining, flattening, and building objects from pairs.

use vstd::prelude::*;
use vstd::string::*;
use crate::value::{
    Json, Value, group_value_views, seq_json, seq_entries, chars_of, char_string, copy_value,
    push_text,
};
use crate::lang::{text_of, item_text, value_text, item_string};
use crate::object::{key_index, put, find_key};
use crate::array::{chars_json, char_values};

verus! {

/// The texts `ts` joined by `sep`.
pub open spec fn join_texts(ts: Seq<Seq<char>>, sep: Seq<char>) -> Seq<char>
    decreases ts.len(),
{
    if ts.len() == 0 {
        Seq::empty()
    } else if ts.len() == 1 {
        ts[0]
    } else {
        join_texts(ts.drop_last(), sep) + sep + ts.last()
    }
}

/// The texts that `join` joins: the characters of a string, or the string forms
/// of the elements of an array.
pub open spec fn join_parts(v: Json) -> Seq<Seq<char>> {
    match v {
        Json::Str(s) => Seq::new(s.len(), |i: int| seq![s[i]]),
        Json::Arr(a) => Seq::new(a.len(), |i: int| text_of(a[i])),
        _ => Seq::empty(),
    }
}

fn join_strings(ts: &Vec<String>, sep: &str) -> (r: String)
    ensures
        r@ == join_texts(Seq::new(ts@.len(), |i: int| ts@[i]@), sep@),
{
    let ghost all = Seq::new(ts@.len(), |i: int| ts@[i]@);
    let mut r = String::new();
    if ts.len() == 0 {
        return r;
    }
    r = ts[0].clone();
    let mut i: usize = 1;
    assert(all.subrange(0, 1).len() == 1);
    while i < ts.len()
        invariant
            1 <= i <= ts@.len(),
            all == Seq::new(ts@.len(), |i: int| ts@[i]@),
            r@ == join_texts(all.subrange(0, i as int), sep@),
        decreases ts@.len() - i,
    {
        assert(all.subrange(0, i + 1).drop_last() =~= all.subrange(0, i as int));
        let s = String::from_str(sep);
        push_text(&mut r, &s);
        push_text(&mut r, &ts[i]);
        i = i + 1;
    }
    assert(all.subrange(0, ts@.len() as int) =~= all);
    r
}

/// The characters of a string, or the string forms of the elements of an
/// array, joined by `sep`; empty for any other value.
pub fn join_x(v: Value, sep: &str) -> (r: String)
    ensures
        r@ == join_texts(join_parts(v@), sep@),
{
    broadcast use group_value_views;

    let mut parts: Vec<String> = Vec::new();
    match &v {
        Value::String(s) => {
            let cs = chars_of(s);
            let mut i: usize = 0;
            while i < cs.len()
                invariant
                    i <= cs@.len(),
                    cs@ == s@,
                    parts@.len() == i,
                    forall|j: int| 0 <= j < i ==> #[trigger] parts@[j]@ == seq![s@[j]],
                decreases cs@.len() - i,
            {
                parts.push(char_string(cs[i]));
                i = i + 1;
            }
        },
        Value::Array(a) => {
            let mut i: usize = 0;
            while i < a.len()
                invariant
                    i <= a@.len(),
                    parts@.len() == i,
                    forall|j: int| 0 <= j < i ==> #[trigger] parts@[j]@ == text_of(a@[j]@),
                decreases a@.len() - i,
            {
                parts.push(value_text(&a[i]));
                i = i + 1;
            }
        },
        _ => {},
    }
    let r = join_strings(&parts, sep);
    assert(Seq::new(parts@.len(), |i: int| parts@[i]@) =~= join_parts(v@));
    r
}

/// `join_x` as a string value.
pub fn join(v: Value, sep: &str) -> (r: Value)
    ensures
        r@ == Json::Str(join_texts(join_parts(v@), sep@)),
{
    Value::String(join_x(v, sep))
}

/// The elements of `s`, with each array among them replaced by its elements.
pub open spec fn flatten_once(s: Seq<Json>) -> Seq<Json>
    decreases s.len(),
{
    if s.len() == 0 {
        Seq::empty()
    } else {
        flatten_once(s.drop_last()) + match s.last() {
            Json::Arr(inner) => inner,
            x => seq![x],
        }
    }
}

/// The elements of `s`, with arrays flattened at up to `depth` levels.
pub open spec fn flatten_levels(s: Seq<Json>, depth: nat) -> Seq<Json>
    decreases s, depth,
{
    if depth == 0 {
        s
    } else if s.len() == 0 {
        Seq::empty()
    } else {
        flatten_levels(s.drop_last(), depth) + match s.last() {
            Json::Arr(inner) => flatten_levels(inner, (depth - 1) as nat),
            x => seq![x],
        }
    }
}

/// The elements of `s`, with arrays flattened at every level.
pub open spec fn flatten_all(s: Seq<Json>) -> Seq<Json>
    decreases s,
{
    if s.len() == 0 {
        Seq::empty()
    } else {
        flatten_all(s.drop_last()) + match s.last() {
            Json::Arr(inner) => flatten_all(inner),
            x => seq![x],
        }
    }
}

fn append_copies(r: &mut Vec<Value>, a: &Vec<Value>)
    ensures
        seq_json(final(r)@) == seq_json(old(r)@) + seq_json(a@),
{
    broadcast use group_value_views;

    let ghost r0 = seq_json(r@);
    let mut i: usize = 0;
    while i < a.len()
        invariant
            i <= a@.len(),
            seq_json(r@) =~= r0 + seq_json(a@).subrange(0, i as int),
        decreases a@.len() - i,
    {
        let c = copy_value(&a[i]);
        let ghost rr = r@;
        r.push(c);
        assert(seq_json(r@) == seq_json(rr).push(c@));
        i = i + 1;
        assert(seq_json(r@) =~= r0 + seq_json(a@).subrange(0, i as int));
    }
}

/// `vec` with each array among its elements replaced by its elements.
pub fn x_flatten_x(vec: Vec<Value>) -> (r: Vec<Value>)
    ensures
        seq_json(r@) == flatten_once(seq_json(vec@)),
{
    broadcast use group_value_views;

    let ghost s = seq_json(vec@);
    let mut r: Vec<Value> = Vec::new();
    let mut i: usize = 0;
    assert(s.subrange(0, 0) =~= Seq::<Json>::empty());
    assert(seq_json(r@) =~= Seq::<Json>::empty());
    while i < vec.len()
        invariant
            i <= vec@.len(),
            s == seq_json(vec@),
            seq_json(r@) == flatten_once(s.subrange(0, i as int)),
        decreases vec@.len() - i,
    {
        assert(s.subrange(0, i + 1).drop_last() =~= s.subrange(0, i as int));
        match &vec[i] {
            Value::Array(inner) => append_copies(&mut r, inner),
            x => {
                let ghost r0 = seq_json(r@);
                r.push(copy_value(x));
                assert(seq_json(r@) =~= r0 + seq![s[i as int]]);
            },
        }
        i = i + 1;
    }
    assert(s.subrange(0, vec@.len() as int) =~= s);
    r
}

fn flatten_levels_of(vec: &Vec<Value>, depth: usize) -> (r: Vec<Value>)
    ensures
        seq_json(r@) == flatten_levels(seq_json(vec@), depth as nat),
    decreases vec, depth,
{
    broadcast use group_value_views;
    broadcast use vstd::std_specs::vec::axiom_vec_index_decreases;

    let ghost s = seq_json(vec@);
    if depth == 0 {
        let r = crate::value::copy_values(vec, 0, vec.len());
        assert(vec@.subrange(0, vec@.len() as int) =~= vec@);
        return r;
    }
    let mut r: Vec<Value> = Vec::new();
    let mut i: usize = 0;
    assert(s.subrange(0, 0) =~= Seq::<Json>::empty());
    assert(seq_json(r@) =~= Seq::<Json>::empty());
    while i < vec.len()
        invariant
            i <= vec@.len(),
            depth > 0,
            s == seq_json(vec@),
            seq_json(r@) == flatten_levels(s.subrange(0, i as int), depth as nat),
        decreases vec@.len() - i,
    {
        let ghost sub = s.subrange(0, i + 1);
        assert(sub.drop_last() =~= s.subrange(0, i as int));
        assert(decreases_to!(*vec => vec@[i as int]));
        let ghost r0 = seq_json(r@);
        match &vec[i] {
            Value::Array(inner) => {
                proof {
                    crate::value::lemma_array_view(*inner);
                    assert(vec@[i as int] == Value::Array(*inner));
                }
                assert(s[i as int] == Json::Arr(seq_json(inner@)));
                let mut part = flatten_levels_of(inner, depth - 1);
                let ghost ra = r@;
                let ghost pa = part@;
                r.append(&mut part);
                assert(r@ == ra + pa);
                assert(seq_json(r@) =~= r0 + flatten_levels(seq_json(inner@), (depth - 1) as nat));
            },
            x => {
                r.push(copy_value(x));
                assert(seq_json(r@) =~= r0 + seq![s[i as int]]);
            },
        }
        i = i + 1;
    }
    assert(s.subrange(0, vec@.len() as int) =~= s);
    r
}

fn flatten_all_of(vec: &Vec<Value>) -> (r: Vec<Value>)
    ensures
        seq_json(r@) == flatten_all(seq_json(vec@)),
    decreases vec,
{
    broadcast use group_value_views;
    broadcast use vstd::std_specs::vec::axiom_vec_index_decreases;

    let ghost s = seq_json(vec@);
    let mut r: Vec<Value> = Vec::new();
    let mut i: usize = 0;
    assert(s.subrange(0, 0) =~= Seq::<Json>::empty());
    assert(seq_json(r@) =~= Seq::<Json>::empty());
    while i < vec.len()
        invariant
            i <= vec@.len(),
            s == seq_json(vec@),
            seq_json(r@) == flatten_all(s.subrange(0, i as int)),
        decreases vec@.len() - i,
    {
        assert(s.subrange(0, i + 1).drop_last() =~= s.subrange(0, i as int));
        assert(decreases_to!(*vec => vec@[i as int]));
        let ghost r0 = seq_json(r@);
        match &vec[i] {
            Value::Array(inner) => {
                proof {
                    crate::value::lemma_array_view(*inner);
                    assert(vec@[i as int] == Value::Array(*inner));
                }
                assert(s[i as int] == Json::Arr(seq_json(inner@)));
                let mut part = flatten_all_of(inner);
                let ghost ra = r@;
                let ghost pa = part@;
                r.append(&mut part);
                assert(r@ == ra + pa);
                assert(seq_json(r@) =~= r0 + flatten_all(seq_json(inner@)));
            },
            x => {
                r.push(copy_value(x));
                assert(seq_json(r@) =~= r0 + seq![s[i as int]]);
            },
        }
        i = i + 1;
    }
    assert(s.subrange(0, vec@.len() as int) =~= s);
    r
}

/// `vec` with arrays flattened at every level.
pub fn x_flatten_deep_x(vec: Vec<Value>) -> (r: Vec<Value>)
    ensures
        seq_json(r@) == flatten_all(seq_json(vec@)),
{
    flatten_all_of(&vec)
}

/// `vec` with arrays flattened at up to `depth` levels.
pub fn x_flatten_depth_x(vec: Vec<Value>, depth: usize) -> (r: Vec<Value>)
    ensures
        seq_json(r@) == flatten_levels(seq_json(vec@), depth as nat),
{
    flatten_levels_of(&vec, depth)
}

/// The elements that the flatten functions start from: the characters of a
/// string or the elements of an array.
pub open spec fn flatten_source(v: Json) -> Seq<Json> {
    match v {
        Json::Str(s) => chars_json(s),
        Json::Arr(a) => a,
        _ => Seq::empty(),
    }
}

/// An array flattened one level; the characters of a string; empty otherwise.
pub fn flatten(v: Value) -> (r: Value)
    ensures
        r@ == Json::Arr(
            match v@ {
                Json::Arr(a) => flatten_once(a),
                _ => flatten_source(v@),
            },
        ),
{
    broadcast use group_value_views;

    match v {
        Value::String(s) => Value::Array(char_values(&s)),
        Value::Array(a) => Value::Array(x_flatten_x(a)),
        _ => {
            let e: Vec<Value> = Vec::new();
            assert(seq_json(e@) =~= Seq::<Json>::empty());
            Value::Array(e)
        },
    }
}

/// An array flattened at every level; the characters of a string; empty otherwise.
pub fn flatten_deep(v: Value) -> (r: Value)
    ensures
        r@ == Json::Arr(
            match v@ {
                Json::Arr(a) => flatten_all(a),
                _ => flatten_source(v@),
            },
        ),
{
    broadcast use group_value_views;

    match v {
        Value::String(s) => Value::Array(char_values(&s)),
        Value::Array(a) => Value::Array(x_flatten_deep_x(a)),
        _ => {
            let e: Vec<Value> = Vec::new();
            assert(seq_json(e@) =~= Seq::<Json>::empty());
            Value::Array(e)
        },
    }
}

/// An array flattened at up to `depth` levels; the characters of a string;
/// empty otherwise.
pub fn flatten_depth(v: Value, depth: usize) -> (r: Value)
    ensures
        r@ == Json::Arr(
            match v@ {
                Json::Arr(a) => flatten_levels(a, depth as nat),
                _ => flatten_source(v@),
            },
        ),
{
    broadcast use group_value_views;

    match v {
        Value::String(s) => Value::Array(char_values(&s)),
        Value::Array(a) => Value::Array(x_flatten_depth_x(a, depth)),
        _ => {
            let e: Vec<Value> = Vec::new();
            assert(seq_json(e@) =~= Seq::<Json>::empty());
            Value::Array(e)
        },
    }
}

/// The key and, when there is one, the value that one element of `from_pairs`'s
/// input stands for: a string gives its first character and its second; an array
/// gives the string form of its first element and its second element.
pub open spec fn pair_of(item: Json) -> Option<(Seq<char>, Option<Json>)> {
    match item {
        Json::Str(s) => if s.len() == 0 {
            None
        } else if s.len() == 1 {
            Some((seq![s[0]], None))
        } else {
            Some((seq![s[0]], Some(Json::Str(seq![s[1]]))))
        },
        Json::Arr(a) => if a.len() == 0 {
            None
        } else if a.len() == 1 {
            Some((item_text(a[0]), None))
        } else {
            Some((item_text(a[0]), Some(a[1])))
        },
        _ => None,
    }
}

/// The entries `e` without the first one with key `k`.
pub open spec fn remove_key(e: Seq<(Seq<char>, Json)>, k: Seq<char>) -> Seq<(Seq<char>, Json)> {
    let i = key_index(e, k);
    if i < 0 {
        e
    } else {
        e.remove(i)
    }
}

/// The object entries that the pairs `s` build: a pair with a value binds its
/// key, one without a value removes it.
pub open spec fn pairs_entries(s: Seq<Json>) -> Seq<(Seq<char>, Json)>
    decreases s.len(),
{
    if s.len() == 0 {
        Seq::empty()
    } else {
        let e = pairs_entries(s.drop_last());
        match pair_of(s.last()) {
            None => e,
            Some((k, Some(v))) => put(e, k, v),
            Some((k, None)) => remove_key(e, k),
        }
    }
}


fn pair_from(item: &Value) -> (r: Option<(String, Option<Value>)>)
    ensures
        match r {
            None => pair_of(item@) is None,
            Some((k, None)) => pair_of(item@) == Some((k@, None::<Json>)),
            Some((k, Some(v))) => pair_of(item@) == Some((k@, Some(v@))),
        },
{
    broadcast use group_value_views;

    match item {
        Value::String(s) => {
            let cs = chars_of(s);
            if cs.len() == 0 {
                None
            } else if cs.len() == 1 {
                Some((char_string(cs[0]), None))
            } else {
                Some((char_string(cs[0]), Some(Value::String(char_string(cs[1])))))
            }
        },
        Value::Array(a) => {
            if a.len() == 0 {
                None
            } else if a.len() == 1 {
                Some((item_string(&a[0]), None))
            } else {
                Some((item_string(&a[0]), Some(copy_value(&a[1]))))
            }
        },
        _ => None,
    }
}

/// An object built from key-value pairs: each element of the array `v` is a
/// pair (a two-character string, or an array of a key and a value); a pair
/// without a value removes its key. An empty object for any other value.
pub fn from_pairs(v: Value) -> (r: Value)
    ensures
        r@ == Json::Obj(
            match v@ {
                Json::Arr(a) => pairs_entries(a),
                _ => Seq::empty(),
            },
        ),
{
    broadcast use group_value_views;

    let mut e: Vec<(String, Value)> = Vec::new();
    assert(seq_entries(e@) =~= Seq::<(Seq<char>, Json)>::empty());
    if let Value::Array(a) = &v {
        let ghost s = seq_json(a@);
        let mut i: usize = 0;
        assert(s.subrange(0, 0) =~= Seq::<Json>::empty());
        while i < a.len()
            invariant
                i <= a@.len(),
                s == seq_json(a@),
                seq_entries(e@) == pairs_entries(s.subrange(0, i as int)),
            decreases a@.len() - i,
        {
            assert(s.subrange(0, i + 1).drop_last() =~= s.subrange(0, i as int));
            let ghost e0 = seq_entries(e@);
            match pair_from(&a[i]) {
                None => {},
                Some((k, Some(x))) => match find_key(&e, &k) {
                    Some(j) => {
                        let ghost kv = (k@, x@);
                        e[j] = (k, x);
                        assert(seq_entries(e@) =~= e0.update(j as int, kv));
                    },
                    None => {
                        e.push((k, x));
                    },
                },
                Some((k, None)) => match find_key(&e, &k) {
                    Some(j) => {
                        let _ = e.remove(j);
                        assert(seq_entries(e@) =~= e0.remove(j as int));
                    },
                    None => {},
                },
            }
            i = i + 1;
        }
        assert(s.subrange(0, a@.len() as int) =~= s);
    }
    Value::Object(e)
}

} // verus!
