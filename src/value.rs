//! The JSON value type, its mathematical model, and the basic operations on
//! values: copying, equality, and access to the characters of strings.

use vstd::prelude::*;
use vstd::string::*;

verus! {

/// The mathematical model of a JSON value.
pub enum Json {
    Null,
    Bool(bool),
    Num(int),
    Str(Seq<char>),
    Arr(Seq<Json>),
    Obj(Seq<(Seq<char>, Json)>),
}

/// A JSON number. Non-negative integers are held as `PosInt`, negative ones as `NegInt`.
#[derive(Clone, Copy, Debug, PartialEq, Eq)]
pub enum Number {
    PosInt(u64),
    NegInt(i64),
}

impl Number {
    pub open spec fn int_value(&self) -> int {
        match self {
            Number::PosInt(u) => *u as int,
            Number::NegInt(i) => *i as int,
        }
    }

    /// Whether the number is in its canonical form: `PosInt` for the
    /// non-negative integers, `NegInt` for the negative ones.
    pub open spec fn canonical(&self) -> bool {
        match self {
            Number::PosInt(_) => true,
            Number::NegInt(i) => *i < 0,
        }
    }

    /// The number holding `u`.
    pub fn from_u64(u: u64) -> (r: Number)
        ensures
            r.int_value() == u,
            r.canonical(),
    {
        Number::PosInt(u)
    }

    /// The number holding `i`, in its canonical form.
    pub fn from_i64(i: i64) -> (r: Number)
        ensures
            r.int_value() == i,
            r.canonical(),
    {
        if i < 0 {
            Number::NegInt(i)
        } else {
            Number::PosInt(i as u64)
        }
    }
}

/// A dynamically typed JSON value. An object keeps its entries in insertion
/// order; `crate::wf::json_wf` states that its keys are unique. Numbers are
/// integers: a fractional JSON number has no value of this type.
#[derive(Debug, PartialEq)]
pub enum Value {
    Null,
    Bool(bool),
    Number(Number),
    String(String),
    Array(Vec<Value>),
    Object(Vec<(String, Value)>),
}

pub open spec fn json_of(v: &Value) -> Json
    decreases v,
{
    proof {
        broadcast use vstd::std_specs::vec::axiom_vec_index_decreases;
    }
    match v {
        Value::Null => Json::Null,
        Value::Bool(b) => Json::Bool(*b),
        Value::Number(n) => Json::Num(n.int_value()),
        Value::String(s) => Json::Str(s@),
        Value::Array(a) => Json::Arr(
            Seq::new(a@.len(), |i: int| if 0 <= i < a@.len() { json_of(&a@[i]) } else { Json::Null }),
        ),
        Value::Object(o) => Json::Obj(
            Seq::new(
                o@.len(),
                |i: int|
                    if 0 <= i < o@.len() {
                        (o@[i].0@, json_of(&o@[i].1))
                    } else {
                        (Seq::empty(), Json::Null)
                    },
            ),
        ),
    }
}

impl View for Value {
    type V = Json;

    open spec fn view(&self) -> Json {
        json_of(self)
    }
}

/// The models of a sequence of values.
pub open spec fn seq_json(s: Seq<Value>) -> Seq<Json> {
    Seq::new(s.len(), |i: int| s[i]@)
}

/// The models of a sequence of object entries.
pub open spec fn seq_entries(s: Seq<(String, Value)>) -> Seq<(Seq<char>, Json)> {
    Seq::new(s.len(), |i: int| (s[i].0@, s[i].1@))
}

pub broadcast proof fn lemma_seq_json_push(s: Seq<Value>, x: Value)
    ensures
        #[trigger] seq_json(s.push(x)) == seq_json(s).push(x@),
{
    assert(seq_json(s.push(x)) =~= seq_json(s).push(x@));
}

pub broadcast proof fn lemma_seq_entries_push(s: Seq<(String, Value)>, x: (String, Value))
    ensures
        #[trigger] seq_entries(s.push(x)) == seq_entries(s).push((x.0@, x.1@)),
{
    assert(seq_entries(s.push(x)) =~= seq_entries(s).push((x.0@, x.1@)));
}

pub broadcast proof fn lemma_seq_json_concat(a: Seq<Value>, b: Seq<Value>)
    ensures
        #[trigger] seq_json(a + b) == seq_json(a) + seq_json(b),
{
    assert(seq_json(a + b) =~= seq_json(a) + seq_json(b));
}

pub proof fn lemma_subrange_push<T>(s: Seq<T>, from: int, to: int)
    requires
        0 <= from <= to < s.len(),
    ensures
        s.subrange(from, to + 1) == s.subrange(from, to).push(s[to]),
{
    assert(s.subrange(from, to + 1) =~= s.subrange(from, to).push(s[to]));
}

pub broadcast proof fn lemma_array_view(a: Vec<Value>)
    ensures
        #[trigger] Value::Array(a)@ == Json::Arr(seq_json(a@)),
{
    assert(Value::Array(a)@->Arr_0 =~= seq_json(a@));
}

pub broadcast proof fn lemma_object_view(o: Vec<(String, Value)>)
    ensures
        #[trigger] Value::Object(o)@ == Json::Obj(seq_entries(o@)),
{
    assert(Value::Object(o)@->Obj_0 =~= seq_entries(o@));
}

pub broadcast group group_value_views {
    lemma_seq_json_concat,
    lemma_seq_json_push,
    lemma_seq_entries_push,
    lemma_array_view,
    lemma_object_view,
}

pub open spec fn is_scalar(j: Json) -> bool {
    j is Null || j is Bool || j is Num || j is Str
}

/// Whether `v` is a scalar: no array and no object.
pub fn is_scalar_value(v: &Value) -> (r: bool)
    ensures
        r == is_scalar(v@),
{
    match v {
        Value::Array(_) | Value::Object(_) => false,
        _ => true,
    }
}

/// Relies on `String::push`: appends the character `c` to `s`.
#[verifier::external_body]
pub(crate) fn push_char(s: &mut String, c: char)
    ensures
        final(s)@ == old(s)@.push(c),
{
    s.push(c)
}

/// Appends `t` to `s`.
pub(crate) fn push_text(s: &mut String, t: &String)
    ensures
        final(s)@ == old(s)@ + t@,
{
    s.append(t.as_str());
}

/// The characters of `s`, in order.
pub fn chars_of(s: &String) -> (r: Vec<char>)
    ensures
        r@ == s@,
{
    str_chars(s.as_str())
}

/// The characters of `s`, in order.
pub fn str_chars(s: &str) -> (r: Vec<char>)
    ensures
        r@ == s@,
{
    let n = s.unicode_len();
    let mut r: Vec<char> = Vec::new();
    let mut i: usize = 0;
    while i < n
        invariant
            n == s@.len(),
            i <= n,
            r@ == s@.subrange(0, i as int),
        decreases n - i,
    {
        let c = s.get_char(i);
        r.push(c);
        i = i + 1;
        assert(r@ =~= s@.subrange(0, i as int));
    }
    assert(r@ =~= s@);
    r
}

/// The string of the characters `cs[from..to]`.
pub fn string_of_chars(cs: &Vec<char>, from: usize, to: usize) -> (r: String)
    requires
        from <= to <= cs@.len(),
    ensures
        r@ == cs@.subrange(from as int, to as int),
{
    let mut r = String::new();
    let mut i: usize = from;
    while i < to
        invariant
            from <= i <= to <= cs@.len(),
            r@ == cs@.subrange(from as int, i as int),
        decreases to - i,
    {
        push_char(&mut r, cs[i]);
        i = i + 1;
        assert(r@ =~= cs@.subrange(from as int, i as int));
    }
    r
}

/// The one-character string holding `c`.
pub fn char_string(c: char) -> (r: String)
    ensures
        r@ == seq![c],
{
    let mut r = String::new();
    push_char(&mut r, c);
    assert(r@ =~= seq![c]);
    r
}

/// A copy of `v`.
pub fn copy_value(v: &Value) -> (r: Value)
    ensures
        r@ == v@,
    decreases v,
{
    broadcast use group_value_views;
    broadcast use vstd::std_specs::vec::axiom_vec_index_decreases;

    match v {
        Value::Null => Value::Null,
        Value::Bool(b) => Value::Bool(*b),
        Value::Number(n) => Value::Number(*n),
        Value::String(s) => Value::String(s.clone()),
        Value::Array(a) => {
            let mut r: Vec<Value> = Vec::new();
            let mut i: usize = 0;
            assert(a@.subrange(0, 0) =~= Seq::<Value>::empty());
            while i < a.len()
                invariant
                    v@ == Json::Arr(seq_json(a@)),
                    decreases_to!(*v => *a),
                    i <= a@.len(),
                    r@.len() == i,
                    seq_json(r@) == seq_json(a@.subrange(0, i as int)),
                decreases a@.len() - i,
            {
                assert(decreases_to!(*a => a@[i as int]));
                let c = copy_value(&a[i]);
                let ghost r0 = r@;
                r.push(c);
                assert(seq_json(r@) == seq_json(r0).push(c@));
                proof {
                    lemma_subrange_push(a@, 0, i as int);
                }
                i = i + 1;
            }
            assert(a@.subrange(0, a@.len() as int) =~= a@);
            Value::Array(r)
        },
        Value::Object(o) => {
            let mut r: Vec<(String, Value)> = Vec::new();
            let mut i: usize = 0;
            assert(o@.subrange(0, 0) =~= Seq::<(String, Value)>::empty());
            while i < o.len()
                invariant
                    v@ == Json::Obj(seq_entries(o@)),
                    decreases_to!(*v => *o),
                    i <= o@.len(),
                    r@.len() == i,
                    seq_entries(r@) == seq_entries(o@.subrange(0, i as int)),
                decreases o@.len() - i,
            {
                assert(decreases_to!(*o => o@[i as int]));
                let e = &o[i];
                let c = copy_value(&e.1);
                let k = e.0.clone();
                let ghost r0 = r@;
                r.push((k, c));
                assert(seq_entries(r@) == seq_entries(r0).push((k@, c@)));
                proof {
                    lemma_subrange_push(o@, 0, i as int);
                }
                i = i + 1;
            }
            assert(o@.subrange(0, o@.len() as int) =~= o@);
            Value::Object(r)
        },
    }
}

/// Copies of `a[from..to]`.
pub fn copy_values(a: &Vec<Value>, from: usize, to: usize) -> (r: Vec<Value>)
    requires
        from <= to <= a@.len(),
    ensures
        seq_json(r@) == seq_json(a@.subrange(from as int, to as int)),
{
    broadcast use group_value_views;

    let mut r: Vec<Value> = Vec::new();
    let mut i: usize = from;
    assert(a@.subrange(from as int, from as int) =~= Seq::<Value>::empty());
    while i < to
        invariant
            from <= i <= to <= a@.len(),
            r@.len() == i - from,
            seq_json(r@) == seq_json(a@.subrange(from as int, i as int)),
        decreases to - i,
    {
        let c = copy_value(&a[i]);
        assert(c@ == a@[i as int]@);
        let ghost r0 = r@;
        r.push(c);
        assert(r@ == r0.push(c));
        assert(seq_json(r@) == seq_json(r0).push(c@));
        proof {
            lemma_subrange_push(a@, from as int, i as int);
        }
        assert(seq_json(a@.subrange(from as int, i + 1)) == seq_json(a@.subrange(from as int, i as int)).push(a@[i as int]@));
        i = i + 1;
    }
    r
}



/// Whether `a` and `b` are the same JSON value.
pub fn values_equal(a: &Value, b: &Value) -> (r: bool)
    ensures
        r == (a@ == b@),
    decreases a,
{
    broadcast use group_value_views;
    broadcast use vstd::std_specs::vec::axiom_vec_index_decreases;

    match (a, b) {
        (Value::Null, Value::Null) => true,
        (Value::Bool(x), Value::Bool(y)) => *x == *y,
        (Value::Number(x), Value::Number(y)) => {
            let xi: i128 = match x {
                Number::PosInt(u) => *u as i128,
                Number::NegInt(i) => *i as i128,
            };
            let yi: i128 = match y {
                Number::PosInt(u) => *u as i128,
                Number::NegInt(i) => *i as i128,
            };
            xi == yi
        },
        (Value::String(x), Value::String(y)) => *x == *y,
        (Value::Array(x), Value::Array(y)) => {
            if x.len() != y.len() {
                assert(seq_json(x@).len() != seq_json(y@).len());
                return false;
            }
            let mut i: usize = 0;
            while i < x.len()
                invariant
                    i <= x@.len() == y@.len(),
                    a@ == Json::Arr(seq_json(x@)),
                    b@ == Json::Arr(seq_json(y@)),
                    decreases_to!(*a => *x),
                    forall|j: int| 0 <= j < i ==> x@[j]@ == y@[j]@,
                decreases x@.len() - i,
            {
                assert(decreases_to!(*x => x@[i as int]));
                if !values_equal(&x[i], &y[i]) {
                    assert(seq_json(x@)[i as int] != seq_json(y@)[i as int]);
                    return false;
                }
                i = i + 1;
            }
            assert(seq_json(x@) =~= seq_json(y@));
            true
        },
        (Value::Object(x), Value::Object(y)) => {
            if x.len() != y.len() {
                assert(seq_entries(x@).len() != seq_entries(y@).len());
                return false;
            }
            let mut i: usize = 0;
            while i < x.len()
                invariant
                    i <= x@.len() == y@.len(),
                    a@ == Json::Obj(seq_entries(x@)),
                    b@ == Json::Obj(seq_entries(y@)),
                    decreases_to!(*a => *x),
                    forall|j: int| 0 <= j < i ==> x@[j].0@ == y@[j].0@ && x@[j].1@ == y@[j].1@,
                decreases x@.len() - i,
            {
                assert(decreases_to!(*x => x@[i as int]));
                if x[i].0 != y[i].0 {
                    assert(seq_entries(x@)[i as int] != seq_entries(y@)[i as int]);
                    return false;
                }
                if !values_equal(&x[i].1, &y[i].1) {
                    assert(seq_entries(x@)[i as int] != seq_entries(y@)[i as int]);
                    return false;
                }
                i = i + 1;
            }
            assert(seq_entries(x@) =~= seq_entries(y@));
            true
        },
        _ => false,
    }
}

} // verus!
