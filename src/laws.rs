//! Properties that relate the library's functions to one another.

use vstd::prelude::*;
use crate::value::Json;
use crate::text::{digits_of, digits_value, all_digits, is_digit, digit_char, digit_value, parse_unsigned, parse_signed, unsigned_body};
use crate::lang::{safe_integer_of, string_number, text_of};
use crate::path::path_of;
use crate::object::{
    key_index, lookup, put, get_step, get_path, get_json, set_at, set_json, pad, index_of_segment,
    lemma_key_index_facts,
};
use crate::merge::{merge_json, merge_items};

verus! {

/// An array of one element coerces to the same integer as that element, so
/// wrapping a one-element array in another array changes nothing.
pub proof fn lemma_safe_integer_unwraps_single(a: Json)
    ensures
        safe_integer_of(Json::Arr(seq![a])) == safe_integer_of(a),
{
}

proof fn lemma_digits_of(m: nat)
    ensures
        digits_of(m).len() > 0,
        all_digits(digits_of(m)),
        digits_value(digits_of(m)) == m,
        is_digit(digits_of(m)[0]),
    decreases m,
{
    if m < 10 {
        assert(digit_value(digit_char(m)) == m);
        assert(seq![digit_char(m)].drop_last() =~= Seq::<char>::empty());
        assert(digits_value(Seq::<char>::empty()) == 0);
        assert(digits_value(seq![digit_char(m)]) == m);
    } else {
        lemma_digits_of(m / 10);
        let s = digits_of(m / 10);
        let c = digit_char(m % 10);
        assert(digit_value(c) == m % 10);
        assert(s.push(c).drop_last() =~= s);
        assert(digits_value(s.push(c)) == digits_value(s) * 10 + digit_value(c));
        assert((m / 10) * 10 + m % 10 == m);
        assert(forall|i: int| 0 <= i < s.len() ==> s.push(c)[i] == s[i]);
    }
}

/// The text of an integer reads back as that integer: turning a number into a
/// string and the string back into a number gives the number unchanged.
pub proof fn lemma_integer_text_round_trip(n: int)
    requires
        isize::MIN <= n <= usize::MAX,
    ensures
        string_number(text_of(Json::Num(n))) == Some(n),
{
    if n >= 0 {
        lemma_digits_of(n as nat);
        let s = digits_of(n as nat);
        assert(unsigned_body(s) == s);
        assert(parse_unsigned(s) == Some(n));
    } else {
        lemma_digits_of((-n) as nat);
        let s = seq!['-'] + digits_of((-n) as nat);
        assert(s.drop_first() =~= digits_of((-n) as nat));
        assert(!is_digit('-'));
        assert(!all_digits(unsigned_body(s)));
        assert(parse_signed(s) == Some(n));
    }
}

proof fn lemma_get_path_split(cur: Json, p: Seq<Seq<char>>, i: int)
    requires
        0 <= i <= p.len(),
    ensures
        get_path(cur, p) == match get_path(cur, p.subrange(0, i)) {
            Some(x) => get_path(x, p.subrange(i, p.len() as int)),
            None => None,
        },
    decreases i,
{
    if i == 0 {
        assert(p.subrange(0, 0).len() == 0);
        assert(p.subrange(0, p.len() as int) =~= p);
    } else {
        assert(p.subrange(0, i)[0] == p[0]);
        assert(p.subrange(0, i).drop_first() =~= p.drop_first().subrange(0, i - 1));
        assert(p.subrange(i, p.len() as int) =~= p.drop_first().subrange(i - 1, p.len() - 1));
        match get_step(cur, p[0]) {
            Some(nx) => {
                lemma_get_path_split(nx, p.drop_first(), i - 1);
            },
            None => {},
        }
    }
}

/// `get` gives the default as soon as one segment of the path leads nowhere: a
/// segment asked of `null`, a boolean or a number, a missing key, or an index
/// out of range.
pub proof fn lemma_get_default_at_dead_end(object: Json, path: Json, default: Json, i: int, x: Json)
    requires
        0 <= i < path_of(path).len(),
        get_path(object, path_of(path).subrange(0, i)) == Some(x),
        get_step(x, path_of(path)[i]) is None,
    ensures
        get_json(object, path, default) == default,
{
    let p = path_of(path);
    lemma_get_path_split(object, p, i);
    assert(p.subrange(i, p.len() as int)[0] == p[i]);
}

/// Values without children lead nowhere, whatever the segment.
pub proof fn lemma_scalars_have_no_children(x: Json, k: Seq<char>)
    requires
        x is Null || x is Bool || x is Num,
    ensures
        get_step(x, k) is None,
{
}

proof fn lemma_lookup_put(e: Seq<(Seq<char>, Json)>, k: Seq<char>, v: Json)
    ensures
        lookup(put(e, k, v), k) == Some(v),
{
    lemma_key_index_facts(e, k);
    let i = key_index(e, k);
    let e2 = put(e, k, v);
    if i < 0 {
        crate::object::lemma_key_index(e2, k, e.len() as int);
    } else {
        crate::object::lemma_key_index(e2, k, i);
    }
}

proof fn lemma_get_after_set_at(cur: Json, p: Seq<Seq<char>>, v: Json)
    requires
        p.len() >= 1,
        set_at(cur, p, v) is Some,
    ensures
        get_path(set_at(cur, p, v)->Some_0, p) == Some(v),
    decreases p.len(),
{
    let r = set_at(cur, p, v)->Some_0;
    let k = p[0];
    let rest = p.drop_first();
    if p.len() == 1 {
        assert(get_path(v, rest) == Some(v));
        match cur {
            Json::Arr(a) => {},
            Json::Obj(o) => {
                lemma_lookup_put(o, k, v);
            },
            _ => match index_of_segment(k) {
                Some(n) => {},
                None => {
                    crate::object::lemma_key_index(seq![(k, v)], k, 0);
                },
            },
        }
        assert(get_step(r, k) == Some(v));
    } else {
        match cur {
            Json::Arr(a) => {
                let i = index_of_segment(k)->Some_0;
                let a2 = pad(a, (i + 1) as nat);
                lemma_get_after_set_at(a2[i], rest, v);
                assert(get_step(r, k) == set_at(a2[i], rest, v));
            },
            Json::Obj(o) => {
                let child = match lookup(o, k) {
                    Some(c) => c,
                    None => crate::object::fresh_container(rest),
                };
                lemma_get_after_set_at(child, rest, v);
                lemma_lookup_put(o, k, set_at(child, rest, v)->Some_0);
                assert(get_step(r, k) == set_at(child, rest, v));
            },
            _ => match index_of_segment(k) {
                Some(i) => {
                    lemma_get_after_set_at(Json::Null, rest, v);
                    assert(get_step(r, k) == set_at(Json::Null, rest, v));
                },
                None => {
                    lemma_get_after_set_at(crate::object::fresh_container(rest), rest, v);
                    let c = set_at(crate::object::fresh_container(rest), rest, v)->Some_0;
                    crate::object::lemma_key_index(seq![(k, c)], k, 0);
                    assert(get_step(r, k) == Some(c));
                },
            },
        }
    }
}

/// Reading a path right after setting it gives the value that was set. This
/// holds whenever the path is not empty and `set` does not meet an array with
/// a segment that is no index (there it leaves the object unchanged).
pub proof fn lemma_get_after_set(object: Json, path: Json, v: Json)
    requires
        path_of(path).len() > 0,
        set_at(object, path_of(path), v) is Some,
    ensures
        get_json(set_json(object, path, v), path, Json::Null) == v,
{
    lemma_get_after_set_at(object, path_of(path), v);
}

/// Merging an empty object into an object leaves it unchanged.
pub proof fn lemma_merge_empty_object_source(oe: Seq<(Seq<char>, Json)>)
    ensures
        merge_json(Json::Obj(oe), Json::Obj(Seq::empty())) == Json::Obj(oe),
{
}

/// Merging an array into an empty array gives that array.
pub proof fn lemma_merge_into_empty_array(sa: Seq<Json>)
    ensures
        merge_json(Json::Arr(Seq::empty()), Json::Arr(sa)) == Json::Arr(sa),
{
    assert(merge_items(Seq::empty(), sa) =~= sa);
}

} // verus!
