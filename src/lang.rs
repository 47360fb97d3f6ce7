//! Coercion of values to strings and to integers.

use vstd::prelude::*;
use vstd::string::*;
use crate::value::{
    Json, Number, Value, seq_json, group_value_views, push_char, push_text, chars_of,
};
use crate::text::{
    decimal, parse_signed, parse_unsigned, is_decimal_fraction, truncated_fraction, clamp,
    all_digits, is_digit, first_dot, sign_body, int_part, frac_part, unsigned_body, u64_text,
    i64_text, read_digits, read_digits_saturating, first_exp, mantissa, exponent_text, exponent_of,
    fraction_digits, scaled_digits, lemma_first_exp, is_infinity_text, same_word, ascii_lower,
    lemma_pow10_values, digits_value, lemma_scaled_far,
};

verus! {

/// The text that stands for any object when it is turned into a string.
pub open spec fn object_text() -> Seq<char> {
    "[object Object]"@
}

/// The string form of a JSON value.
pub open spec fn text_of(j: Json) -> Seq<char>
    decreases j, 0nat,
{
    match j {
        Json::Null => Seq::empty(),
        Json::Bool(b) => if b {
            "true"@
        } else {
            "false"@
        },
        Json::Num(n) => decimal(n),
        Json::Str(s) => s,
        Json::Arr(a) => items_text(a),
        Json::Obj(_) => object_text(),
    }
}

/// The string form of one array element: `null` is spelled out.
pub open spec fn item_text(j: Json) -> Seq<char>
    decreases j, 1nat,
{
    if j is Null {
        "null"@
    } else {
        text_of(j)
    }
}

/// The string forms of the elements of `a`, joined by `,`.
pub open spec fn items_text(a: Seq<Json>) -> Seq<char>
    decreases a, 0nat,
{
    if a.len() == 0 {
        Seq::empty()
    } else if a.len() == 1 {
        item_text(a[0])
    } else {
        items_text(a.drop_last()) + seq![','] + item_text(a.last())
    }
}

/// The integer that a JSON value coerces to, truncated toward zero and clamped
/// to the range of `isize`. A string is read as an integer, else as a decimal
/// number (with an optional exponent) or an infinity; any other text gives zero.
pub open spec fn safe_integer_of(j: Json) -> int
    decreases j,
{
    match j {
        Json::Null => 0,
        Json::Bool(b) => if b {
            1
        } else {
            0
        },
        Json::Num(n) => clamp(n, isize::MIN as int, isize::MAX as int),
        Json::Str(s) => match parse_signed(s) {
            Some(v) => v,
            None => if is_decimal_fraction(s) {
                truncated_fraction(s)
            } else if is_infinity_text(s) {
                if s[0] == '-' {
                    isize::MIN as int
                } else {
                    isize::MAX as int
                }
            } else {
                0
            },
        },
        Json::Arr(a) => if a.len() == 1 {
            safe_integer_of(a[0])
        } else {
            0
        },
        Json::Obj(_) => 0,
    }
}

/// The number that a string coerces to: `0` when empty, else its value as an
/// unsigned integer, else as a signed one; none for any other text.
pub open spec fn string_number(s: Seq<char>) -> Option<int> {
    if s.len() == 0 {
        Some(0)
    } else if parse_unsigned(s) is Some {
        parse_unsigned(s)
    } else {
        parse_signed(s)
    }
}

/// The number that a JSON value coerces to; none stands for NaN.
pub open spec fn number_of(j: Json) -> Option<int>
    decreases j,
{
    match j {
        Json::Null => Some(0),
        Json::Bool(b) => Some(
            if b {
                1
            } else {
                0
            },
        ),
        Json::Num(n) => Some(n),
        Json::Str(s) => string_number(s),
        Json::Arr(a) => if a.len() == 0 {
            Some(0)
        } else if a.len() == 1 {
            number_of(a[0])
        } else {
            None
        },
        Json::Obj(_) => None,
    }
}

/// The integer model of an optional number.
pub open spec fn opt_int(r: Option<Number>) -> Option<int> {
    match r {
        Some(n) => Some(n.int_value()),
        None => None,
    }
}

pub proof fn lemma_items_text_step(a: Seq<Json>, i: int)
    requires
        1 <= i < a.len(),
    ensures
        items_text(a.subrange(0, i + 1)) == items_text(a.subrange(0, i)) + seq![','] + item_text(a[i]),
{
    assert(a.subrange(0, i + 1).drop_last() =~= a.subrange(0, i));
}

/// The object placeholder text.
pub fn object_string() -> (r: String)
    ensures
        r@ == object_text(),
{
    String::from_str("[object Object]")
}

fn literal(s: &str) -> (r: String)
    ensures
        r@ == s@,
{
    String::from_str(s)
}

/// The string form of one array element: `null` is spelled out.
pub fn item_string(v: &Value) -> (r: String)
    ensures
        r@ == item_text(v@),
    decreases v, 1nat,
{
    match v {
        Value::Null => literal("null"),
        _ => value_text(v),
    }
}

/// The string form of `v`.
pub fn value_text(v: &Value) -> (r: String)
    ensures
        r@ == text_of(v@),
    decreases v, 0nat,
{
    broadcast use group_value_views;
    broadcast use vstd::std_specs::vec::axiom_vec_index_decreases;

    match v {
        Value::Null => String::new(),
        Value::Bool(b) => if *b {
            literal("true")
        } else {
            literal("false")
        },
        Value::Number(n) => number_string(n),
        Value::String(s) => s.clone(),
        Value::Array(a) => {
            if a.len() == 0 {
                return String::new();
            }
            let ghost sj = seq_json(a@);
            assert(decreases_to!(*a => a@[0]));
            let mut r = item_string(&a[0]);
            assert(sj.subrange(0, 1).drop_last().len() == 0);
            let mut i: usize = 1;
            while i < a.len()
                invariant
                    1 <= i <= a@.len(),
                    sj == seq_json(a@),
                    v@ == Json::Arr(sj),
                    decreases_to!(*v => *a),
                    r@ == items_text(sj.subrange(0, i as int)),
                decreases a@.len() - i,
            {
                assert(decreases_to!(*a => a@[i as int]));
                let t = item_string(&a[i]);
                push_char(&mut r, ',');
                push_text(&mut r, &t);
                proof {
                    lemma_items_text_step(sj, i as int);
                }
                i = i + 1;
            }
            assert(sj.subrange(0, a@.len() as int) =~= sj);
            r
        },
        Value::Object(_) => object_string(),
    }
}

/// The decimal text of a number.
pub fn number_string(n: &Number) -> (r: String)
    ensures
        r@ == decimal(n.int_value()),
{
    match n {
        Number::PosInt(u) => u64_text(*u),
        Number::NegInt(i) => i64_text(*i),
    }
}

/// Coerces a value to a string.
pub fn to_string_x(v: Value) -> (r: String)
    ensures
        r@ == text_of(v@),
{
    value_text(&v)
}

/// Coerces a value to a string value.
pub fn to_string(v: Value) -> (r: Value)
    ensures
        r@ == Json::Str(text_of(v@)),
{
    Value::String(value_text(&v))
}

/// The string value holding `v`.
pub fn x_to_string(v: &str) -> (r: Value)
    ensures
        r@ == Json::Str(v@),
{
    Value::String(String::from_str(v))
}

/// Whether `cs[from..to]` holds only digits.
pub fn digits_only(cs: &Vec<char>, from: usize, to: usize) -> (r: bool)
    requires
        from <= to <= cs@.len(),
    ensures
        r == all_digits(cs@.subrange(from as int, to as int)),
{
    let mut i: usize = from;
    while i < to
        invariant
            from <= i <= to <= cs@.len(),
            all_digits(cs@.subrange(from as int, i as int)),
        decreases to - i,
    {
        let k = cs[i] as u32;
        if k < 48 || k > 57 {
            assert(!is_digit(cs@.subrange(from as int, to as int)[i - from]));
            return false;
        }
        i = i + 1;
        assert(all_digits(cs@.subrange(from as int, i as int))) by {
            assert forall|j: int| 0 <= j < i - from implies is_digit(
                #[trigger] cs@.subrange(from as int, i as int)[j],
            ) by {
                if j < i - from - 1 {
                    assert(cs@.subrange(from as int, i as int)[j] == cs@.subrange(
                        from as int,
                        i - 1,
                    )[j]);
                }
            }
        }
    }
    true
}

pub proof fn lemma_first_dot(b: Seq<char>, k: int)
    requires
        0 <= k <= b.len(),
        forall|j: int| 0 <= j < k ==> b[j] != '.',
        k == b.len() || b[k] == '.',
    ensures
        first_dot(b) == k,
    decreases k,
{
    if k > 0 {
        lemma_first_dot(b.drop_first(), k - 1);
    }
}

/// The signed integer that `cs` reads as, within the range of `isize`.
pub fn read_signed(cs: &Vec<char>) -> (r: Option<isize>)
    ensures
        r matches Some(v) ==> parse_signed(cs@) == Some(v as int),
        r is None ==> parse_signed(cs@) is None,
{
    let n = cs.len();
    if n > 0 && cs[0] == '-' {
        let cap = (0 - (isize::MIN as i128)) as u64;
        assert(cs@.subrange(1, n as int) =~= cs@.drop_first());
        match read_digits(cs, 1, n, cap) {
            Some(m) => Some((0 - (m as i128)) as isize),
            None => None,
        }
    } else {
        let start: usize = if n > 0 && cs[0] == '+' { 1 } else { 0 };
        assert(cs@.subrange(start as int, n as int) =~= unsigned_body(cs@));
        match read_digits(cs, start, n, isize::MAX as u64) {
            Some(m) => Some(m as isize),
            None => None,
        }
    }
}

/// The unsigned integer that `cs` reads as, at most `usize::MAX`.
pub fn read_unsigned(cs: &Vec<char>) -> (r: Option<u64>)
    ensures
        r matches Some(v) ==> parse_unsigned(cs@) == Some(v as int),
        r is None ==> parse_unsigned(cs@) is None,
{
    let n = cs.len();
    let start: usize = if n > 0 && cs[0] == '+' { 1 } else { 0 };
    assert(cs@.subrange(start as int, n as int) =~= unsigned_body(cs@));
    read_digits(cs, start, n, usize::MAX as u64)
}

/// Where the parts of the number text `cs` stand: its start after the sign,
/// the end of the integer digits, the start of the fraction digits, and the
/// exponent marker (or the end).
fn number_layout(cs: &Vec<char>) -> (r: (usize, usize, usize, usize))
    ensures
        ({
            let (start, k, frac_from, x) = r;
            let b = sign_body(cs@);
            let m = mantissa(b);
            &&& start <= k <= frac_from <= x <= cs@.len()
            &&& start == (if cs@.len() > 0 && (cs@[0] == '+' || cs@[0] == '-') { 1int } else { 0int })
            &&& x - start == first_exp(b)
            &&& (x < cs@.len() <==> first_exp(b) < b.len())
            &&& cs@.subrange(start as int, k as int) == int_part(m)
            &&& cs@.subrange(frac_from as int, x as int) == frac_part(m)
            &&& x < cs@.len() ==> exponent_text(b) == cs@.subrange(x + 1, cs@.len() as int)
        }),
{
    let n = cs.len();
    let start: usize = if n > 0 && (cs[0] == '+' || cs[0] == '-') { 1 } else { 0 };
    let ghost b = sign_body(cs@);
    assert(cs@.subrange(start as int, n as int) =~= b);
    let mut x: usize = start;
    while x < n && cs[x] != 'e' && cs[x] != 'E'
        invariant
            start <= x <= n == cs@.len(),
            b == cs@.subrange(start as int, n as int),
            forall|j: int| 0 <= j < x - start ==> b[j] != 'e' && b[j] != 'E',
        decreases n - x,
    {
        x = x + 1;
    }
    proof {
        lemma_first_exp(b, x - start);
        if x < n {
            assert(exponent_text(b) =~= cs@.subrange(x + 1, n as int));
        }
    }
    let ghost m = mantissa(b);
    assert(cs@.subrange(start as int, x as int) =~= m);
    let mut k: usize = start;
    while k < x && cs[k] != '.'
        invariant
            start <= k <= x <= n == cs@.len(),
            m == cs@.subrange(start as int, x as int),
            forall|j: int| 0 <= j < k - start ==> m[j] != '.',
        decreases x - k,
    {
        k = k + 1;
    }
    proof {
        lemma_first_dot(m, k - start);
        assert(cs@.subrange(start as int, k as int) =~= int_part(m));
    }
    let frac_from: usize = if k < x { k + 1 } else { x };
    assert(cs@.subrange(frac_from as int, x as int) =~= frac_part(m));
    (start, k, frac_from, x)
}

/// The integer part of the decimal number `cs`, clamped to `isize`; none when
/// `cs` is no decimal number.
pub fn read_fraction(cs: &Vec<char>) -> (r: Option<isize>)
    ensures
        r matches Some(v) ==> is_decimal_fraction(cs@) && v == truncated_fraction(cs@),
        r is None ==> !is_decimal_fraction(cs@),
{
    let n = cs.len();
    let neg = n > 0 && cs[0] == '-';
    let (start, k, frac_from, x) = number_layout(cs);
    let ghost b = sign_body(cs@);
    let ghost m = mantissa(b);
    if !digits_only(cs, start, k) || !digits_only(cs, frac_from, x) {
        return None;
    }
    if k - start + (x - frac_from) == 0 {
        return None;
    }
    let e = match read_exponent(cs, x) {
        Some(e) => e,
        None => {
            return None;
        },
    };
    let d = collect_digits(cs, start, k, frac_from, x);
    assert(d@ =~= fraction_digits(m));
    let cap: u128 = if neg { (0 - (isize::MIN as i128)) as u128 } else { isize::MAX as u128 };
    let nint: i128 = (k - start) as i128 + e;
    proof {
        lemma_pow10_values();
        let len = d@.len() as int;
        let ni = int_part(m).len() + exponent_of(b);
        assert(len <= n);
        assert(n <= usize::MAX);
        if ni != nint {
            lemma_scaled_far(d@, nint as int, ni, cap as int);
        }
    }
    let mag = scaled_digits(&d, nint, cap);
    if neg {
        Some((0 - (mag as i128)) as isize)
    } else {
        Some(mag as isize)
    }
}

/// The digits `cs[start..k]` followed by `cs[frac_from..x]`.
fn collect_digits(cs: &Vec<char>, start: usize, k: usize, frac_from: usize, x: usize) -> (d: Vec<char>)
    requires
        start <= k <= frac_from <= x <= cs@.len(),
        all_digits(cs@.subrange(start as int, k as int)),
        all_digits(cs@.subrange(frac_from as int, x as int)),
    ensures
        d@ == cs@.subrange(start as int, k as int) + cs@.subrange(frac_from as int, x as int),
        all_digits(d@),
{
    let n = cs.len();
    let mut d: Vec<char> = Vec::new();
    let mut i: usize = start;
    while i < k
        invariant
            start <= i <= k <= x <= n == cs@.len(),
            d@ == cs@.subrange(start as int, i as int),
        decreases k - i,
    {
        d.push(cs[i]);
        i = i + 1;
        assert(d@ =~= cs@.subrange(start as int, i as int));
    }
    let mut i: usize = frac_from;
    while i < x
        invariant
            frac_from <= i <= x <= n == cs@.len(),
            d@ == cs@.subrange(start as int, k as int) + cs@.subrange(frac_from as int, i as int),
        decreases x - i,
    {
        d.push(cs[i]);
        i = i + 1;
        assert(d@ =~= cs@.subrange(start as int, k as int) + cs@.subrange(frac_from as int, i as int));
    }
    let ghost p = cs@.subrange(start as int, k as int);
    let ghost q = cs@.subrange(frac_from as int, x as int);
    assert(all_digits(d@)) by {
        assert forall|j: int| 0 <= j < d@.len() implies is_digit(#[trigger] d@[j]) by {
            if j < p.len() {
                assert(d@[j] == p[j]);
            } else {
                assert(d@[j] == q[j - p.len()]);
            }
        }
    }
    d
}

/// The bound at which the exponent of a decimal number is read no further.
pub open spec fn exponent_cap() -> int {
    0x400000000000000000
}

/// The exponent of the number text `cs` whose marker stands at `x` (none when
/// `x` is its length), read up to `exponent_cap()`; none when the digits after
/// the marker are missing or are not all digits.
fn read_exponent(cs: &Vec<char>, x: usize) -> (r: Option<i128>)
    requires
        x <= cs@.len(),
    ensures
        r is None <==> (x < cs@.len() && !(sign_body(cs@.subrange(x + 1, cs@.len() as int)).len() > 0
            && all_digits(sign_body(cs@.subrange(x + 1, cs@.len() as int))))),
        r matches Some(e) ==> (if x == cs@.len() {
            e == 0
        } else {
            let t = cs@.subrange(x + 1, cs@.len() as int);
            let v = clamp(digits_value(sign_body(t)) as int, 0, exponent_cap());
            e == if t.len() > 0 && t[0] == '-' {
                -v
            } else {
                v
            }
        }),
{
    let n = cs.len();
    if x == n {
        return Some(0);
    }
    let es = x + 1;
    let ed: usize = if es < n && (cs[es] == '+' || cs[es] == '-') { es + 1 } else { es };
    let eneg = es < n && cs[es] == '-';
    let ghost t = cs@.subrange(es as int, n as int);
    assert(sign_body(t) =~= cs@.subrange(ed as int, n as int));
    if ed == n || !digits_only(cs, ed, n) {
        return None;
    }
    let v = read_digits_saturating(cs, ed, n, 0x400000000000000000);
    Some(if eneg { 0 - (v as i128) } else { v as i128 })
}

/// Whether `cs` is an optionally signed `inf` or `infinity`, in any letter case.
pub fn reads_infinity(cs: &Vec<char>) -> (r: bool)
    ensures
        r == is_infinity_text(cs@),
{
    let n = cs.len();
    let start: usize = if n > 0 && (cs[0] == '+' || cs[0] == '-') { 1 } else { 0 };
    assert(cs@.subrange(start as int, n as int) =~= sign_body(cs@));
    let short = crate::value::str_chars("inf");
    let long = crate::value::str_chars("infinity");
    same_word_at(cs, start, &short) || same_word_at(cs, start, &long)
}

fn lower_ascii(c: char) -> (r: char)
    ensures
        r == ascii_lower(c),
{
    let k = c as u32;
    if 65 <= k && k <= 90 {
        ((k + 32) as u8) as char
    } else {
        c
    }
}

fn same_word_at(cs: &Vec<char>, start: usize, w: &Vec<char>) -> (r: bool)
    requires
        start <= cs@.len(),
    ensures
        r == same_word(cs@.subrange(start as int, cs@.len() as int), w@),
{
    let ghost s = cs@.subrange(start as int, cs@.len() as int);
    let n = cs.len();
    if n - start != w.len() {
        return false;
    }
    let mut i: usize = 0;
    while i < w.len()
        invariant
            n == cs@.len(),
            s == cs@.subrange(start as int, cs@.len() as int),
            s.len() == w@.len(),
            start + w@.len() == cs@.len(),
            i <= w@.len(),
            forall|j: int| 0 <= j < i ==> ascii_lower(#[trigger] s[j]) == w@[j],
        decreases w@.len() - i,
    {
        assert(s[i as int] == cs@[start + i]);
        if lower_ascii(cs[start + i]) != w[i] {
            return false;
        }
        i = i + 1;
    }
    true
}

fn string_safe_integer(s: &String) -> (r: isize)
    ensures
        r == safe_integer_of(Json::Str(s@)),
{
    let cs = chars_of(s);
    proof {
        reveal_strlit("inf");
        reveal_strlit("infinity");
    }
    match read_signed(&cs) {
        Some(v) => v,
        None => match read_fraction(&cs) {
            Some(v) => v,
            None => if reads_infinity(&cs) {
                if cs.len() > 0 && cs[0] == '-' {
                    isize::MIN
                } else {
                    isize::MAX
                }
            } else {
                0
            },
        },
    }
}

fn safe_integer(v: &Value) -> (r: isize)
    ensures
        r == safe_integer_of(v@),
    decreases v,
{
    broadcast use group_value_views;
    broadcast use vstd::std_specs::vec::axiom_vec_index_decreases;

    match v {
        Value::Null => 0,
        Value::Bool(b) => if *b {
            1
        } else {
            0
        },
        Value::Number(n) => match n {
            Number::PosInt(u) => if *u > isize::MAX as u64 {
                isize::MAX
            } else {
                *u as isize
            },
            Number::NegInt(i) => if (*i as i128) < (isize::MIN as i128) {
                isize::MIN
            } else if (*i as i128) > (isize::MAX as i128) {
                isize::MAX
            } else {
                *i as isize
            },
        },
        Value::String(s) => string_safe_integer(s),
        Value::Array(a) => if a.len() == 1 {
            assert(decreases_to!(*a => a@[0]));
            safe_integer(&a[0])
        } else {
            0
        },
        Value::Object(_) => 0,
    }
}

/// Coerces a value to an integer, truncating toward zero.
pub fn to_safe_integer_x(v: Value) -> (r: isize)
    ensures
        r == safe_integer_of(v@),
{
    safe_integer(&v)
}

/// Coerces a value to an integer value, truncating toward zero.
pub fn to_safe_integer(v: Value) -> (r: Value)
    ensures
        r@ == Json::Num(safe_integer_of(v@)),
{
    Value::Number(Number::from_i64(safe_integer(&v) as i64))
}

} // verus!
