//! Letter case: lower-casing and capitalizing the string forms of values.

use vstd::prelude::*;
use vstd::string::*;
use crate::value::{Json, Value, group_value_views, seq_json, push_char, push_text, string_of_chars};
use crate::text::decimal;
use crate::lang::{object_text, number_string, object_string};

verus! {

/// What `str::to_lowercase` returns for the characters `s`.
pub uninterp spec fn lower_of(s: Seq<char>) -> Seq<char>;

/// What `str::to_uppercase` returns for the characters `s`.
pub uninterp spec fn upper_of(s: Seq<char>) -> Seq<char>;

/// Relies on `str::to_lowercase`: the result depends on the characters alone,
/// and the empty string stays empty.
#[verifier::external_body]
fn lowercase(s: &str) -> (r: String)
    ensures
        r@ == lower_of(s@),
        s@.len() == 0 ==> r@.len() == 0,
{
    s.to_lowercase()
}

/// Relies on `str::to_uppercase`: the result depends on the characters alone,
/// and the empty string stays empty.
#[verifier::external_body]
fn uppercase(s: &str) -> (r: String)
    ensures
        r@ == upper_of(s@),
        s@.len() == 0 ==> r@.len() == 0,
{
    s.to_uppercase()
}

/// `s` with its first character in upper case and the others in lower case.
pub open spec fn capitalized(s: Seq<char>) -> Seq<char> {
    if s.len() == 0 {
        s
    } else {
        upper_of(seq![s[0]]) + lower_of(s.drop_first())
    }
}

/// The lower-case string form of a value: strings and the object placeholder
/// are lowered, and array elements are joined by `,` with `null` spelled out.
pub open spec fn lower_text(j: Json) -> Seq<char>
    decreases j, 0nat,
{
    match j {
        Json::Null => Seq::empty(),
        Json::Bool(b) => if b {
            "true"@
        } else {
            "false"@
        },
        Json::Num(n) => decimal(n),
        Json::Str(s) => lower_of(s),
        Json::Arr(a) => lower_items(a),
        Json::Obj(_) => lower_of(object_text()),
    }
}

pub open spec fn lower_item(j: Json) -> Seq<char>
    decreases j, 1nat,
{
    if j is Null {
        "null"@
    } else {
        lower_text(j)
    }
}

pub open spec fn lower_items(a: Seq<Json>) -> Seq<char>
    decreases a, 0nat,
{
    if a.len() == 0 {
        Seq::empty()
    } else if a.len() == 1 {
        lower_item(a[0])
    } else {
        lower_items(a.drop_last()) + seq![','] + lower_item(a.last())
    }
}

/// `,` followed by the lower-case string form of each element of `a`.
pub open spec fn lower_tail(a: Seq<Json>) -> Seq<char>
    decreases a.len(),
{
    if a.len() == 0 {
        Seq::empty()
    } else {
        lower_tail(a.drop_last()) + seq![','] + lower_text(a.last())
    }
}

/// The capitalized string form of a value: for an array, its first element
/// capitalized (`Null` for null) and the others in lower case.
pub open spec fn capital_text(j: Json) -> Seq<char>
    decreases j,
{
    match j {
        Json::Null => Seq::empty(),
        Json::Bool(b) => if b {
            "True"@
        } else {
            "False"@
        },
        Json::Num(n) => decimal(n),
        Json::Str(s) => capitalized(s),
        Json::Arr(a) => if a.len() == 0 {
            Seq::empty()
        } else {
            (if a[0] is Null {
                "Null"@
            } else {
                capital_text(a[0])
            }) + lower_tail(a.drop_first())
        },
        Json::Obj(_) => capitalized(object_text()),
    }
}

/// `s` in lower case.
pub fn x_to_lower_x(s: &str) -> (r: String)
    ensures
        r@ == lower_of(s@),
{
    lowercase(s)
}

/// `s` in lower case, as a string value.
pub fn x_to_lower(s: &str) -> (r: Value)
    ensures
        r@ == Json::Str(lower_of(s@)),
{
    Value::String(lowercase(s))
}

fn lower_item_string(v: &Value) -> (r: String)
    ensures
        r@ == lower_item(v@),
    decreases v, 1nat,
{
    match v {
        Value::Null => String::from_str("null"),
        _ => lower_string(v),
    }
}

fn lower_string(v: &Value) -> (r: String)
    ensures
        r@ == lower_text(v@),
    decreases v, 0nat,
{
    broadcast use group_value_views;
    broadcast use vstd::std_specs::vec::axiom_vec_index_decreases;

    match v {
        Value::Null => String::new(),
        Value::Bool(b) => if *b {
            String::from_str("true")
        } else {
            String::from_str("false")
        },
        Value::Number(n) => number_string(n),
        Value::String(s) => lowercase(s.as_str()),
        Value::Array(a) => {
            if a.len() == 0 {
                return String::new();
            }
            let ghost sj = seq_json(a@);
            assert(decreases_to!(*a => a@[0]));
            let mut r = lower_item_string(&a[0]);
            let mut i: usize = 1;
            while i < a.len()
                invariant
                    1 <= i <= a@.len(),
                    sj == seq_json(a@),
                    v@ == Json::Arr(sj),
                    decreases_to!(*v => *a),
                    r@ == lower_items(sj.subrange(0, i as int)),
                decreases a@.len() - i,
            {
                assert(decreases_to!(*a => a@[i as int]));
                let t = lower_item_string(&a[i]);
                push_char(&mut r, ',');
                push_text(&mut r, &t);
                assert(sj.subrange(0, i + 1).drop_last() =~= sj.subrange(0, i as int));
                i = i + 1;
            }
            assert(sj.subrange(0, a@.len() as int) =~= sj);
            r
        },
        Value::Object(_) => {
            let t = object_string();
            lowercase(t.as_str())
        },
    }
}

/// The lower-case string form of a value.
pub fn to_lower_x(v: Value) -> (r: String)
    ensures
        r@ == lower_text(v@),
{
    lower_string(&v)
}

/// The lower-case string form of a value, as a string value.
pub fn to_lower(v: Value) -> (r: Value)
    ensures
        r@ == Json::Str(lower_text(v@)),
{
    Value::String(lower_string(&v))
}

/// `s` with its first character in upper case and the others in lower case.
pub fn x_capitalize_x(s: &str) -> (r: String)
    ensures
        r@ == capitalized(s@),
{
    let cs = crate::value::str_chars(s);
    if cs.len() == 0 {
        return String::new();
    }
    let first = string_of_chars(&cs, 0, 1);
    let rest = string_of_chars(&cs, 1, cs.len());
    assert(cs@.subrange(0, 1) =~= seq![s@[0]]);
    assert(cs@.subrange(1, cs@.len() as int) =~= s@.drop_first());
    let mut r = uppercase(first.as_str());
    let low = lowercase(rest.as_str());
    push_text(&mut r, &low);
    r
}

/// `x_capitalize_x` as a string value.
pub fn x_capitalize(s: &str) -> (r: Value)
    ensures
        r@ == Json::Str(capitalized(s@)),
{
    Value::String(x_capitalize_x(s))
}

fn capital_string(v: &Value) -> (r: String)
    ensures
        r@ == capital_text(v@),
    decreases v,
{
    broadcast use group_value_views;
    broadcast use vstd::std_specs::vec::axiom_vec_index_decreases;

    match v {
        Value::Null => String::new(),
        Value::Bool(b) => if *b {
            String::from_str("True")
        } else {
            String::from_str("False")
        },
        Value::Number(n) => number_string(n),
        Value::String(s) => x_capitalize_x(s.as_str()),
        Value::Array(a) => {
            if a.len() == 0 {
                return String::new();
            }
            let ghost sj = seq_json(a@);
            assert(decreases_to!(*a => a@[0]));
            let mut r = match &a[0] {
                Value::Null => String::from_str("Null"),
                x => capital_string(x),
            };
            let ghost head = r@;
            let mut i: usize = 1;
            assert(sj.drop_first().subrange(0, 0) =~= Seq::<Json>::empty());
            while i < a.len()
                invariant
                    1 <= i <= a@.len(),
                    sj == seq_json(a@),
                    r@ == head + lower_tail(sj.drop_first().subrange(0, i - 1)),
                decreases a@.len() - i,
            {
                let t = lower_string(&a[i]);
                push_char(&mut r, ',');
                push_text(&mut r, &t);
                assert(sj.drop_first().subrange(0, i as int).drop_last() =~= sj.drop_first().subrange(0, i - 1));
                i = i + 1;
            }
            assert(sj.drop_first().subrange(0, a@.len() - 1) =~= sj.drop_first());
            r
        },
        Value::Object(_) => {
            let t = object_string();
            x_capitalize_x(t.as_str())
        },
    }
}

/// The capitalized string form of a value.
pub fn capitalize_x(v: Value) -> (r: String)
    ensures
        r@ == capital_text(v@),
{
    capital_string(&v)
}

/// The capitalized string form of a value, as a string value.
pub fn capitalize(v: Value) -> (r: Value)
    ensures
        r@ == Json::Str(capital_text(v@)),
{
    Value::String(capital_string(&v))
}

} // verus!
