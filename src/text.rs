//! Decimal text: the digits of integers, and reading integers and decimal
//! fractions back from text.

use vstd::prelude::*;
use crate::value::{push_char, char_string};

verus! {

/// The character of the decimal digit `d`.
pub open spec fn digit_char(d: nat) -> char {
    ((d + 48) as u8) as char
}

pub open spec fn is_digit(c: char) -> bool {
    48 <= (c as u32) <= 57
}

pub open spec fn digit_value(c: char) -> nat {
    ((c as u32) - 48) as nat
}

pub open spec fn all_digits(s: Seq<char>) -> bool {
    forall|i: int| 0 <= i < s.len() ==> is_digit(#[trigger] s[i])
}

/// The number that the decimal digits `s` spell.
pub open spec fn digits_value(s: Seq<char>) -> nat
    decreases s.len(),
{
    if s.len() == 0 {
        0
    } else {
        digits_value(s.drop_last()) * 10 + digit_value(s.last())
    }
}

/// The decimal digits of `n`, without leading zeros.
pub open spec fn digits_of(n: nat) -> Seq<char>
    decreases n,
{
    if n < 10 {
        seq![digit_char(n)]
    } else {
        digits_of(n / 10).push(digit_char(n % 10))
    }
}

/// The canonical decimal text of the integer `n`.
pub open spec fn decimal(n: int) -> Seq<char> {
    if n < 0 {
        seq!['-'] + digits_of((-n) as nat)
    } else {
        digits_of(n as nat)
    }
}

/// What `s` holds once one leading `+` is taken off.
pub open spec fn unsigned_body(s: Seq<char>) -> Seq<char> {
    if s.len() > 0 && s[0] == '+' {
        s.drop_first()
    } else {
        s
    }
}

/// The value of `b` when it is a non-empty run of digits whose value is at most `cap`.
pub open spec fn digits_within(b: Seq<char>, cap: int) -> Option<int> {
    if b.len() > 0 && all_digits(b) && digits_value(b) <= cap {
        Some(digits_value(b) as int)
    } else {
        None
    }
}

/// The unsigned integer that `s` reads as: an optional `+`, then decimal digits,
/// with a value of at most `usize::MAX`.
pub open spec fn parse_unsigned(s: Seq<char>) -> Option<int> {
    digits_within(unsigned_body(s), usize::MAX as int)
}

/// The signed integer that `s` reads as: an optional `+` or `-`, then decimal
/// digits, with a value within the range of `isize`.
pub open spec fn parse_signed(s: Seq<char>) -> Option<int> {
    if s.len() > 0 && s[0] == '-' {
        match digits_within(s.drop_first(), -(isize::MIN as int)) {
            Some(m) => Some(-m),
            None => None,
        }
    } else {
        digits_within(unsigned_body(s), isize::MAX as int)
    }
}

/// `10` to the power `k`.
pub open spec fn pow10(k: nat) -> nat
    decreases k,
{
    if k == 0 {
        1
    } else {
        10 * pow10((k - 1) as nat)
    }
}

pub proof fn lemma_pow10_grows(k: nat)
    ensures
        pow10(k) >= 1,
        k >= 20 ==> pow10(k) >= pow10(20),
    decreases k,
{
    if k > 0 {
        lemma_pow10_grows((k - 1) as nat);
        if k > 20 {
            lemma_pow10_grows((k - 1) as nat);
        }
    }
}

pub proof fn lemma_pow10_values()
    ensures
        pow10(19) == 10000000000000000000,
        pow10(20) == 100000000000000000000,
{
    reveal_with_fuel(pow10, 21);
}

pub proof fn lemma_pow10_mono(a: nat, b: nat)
    requires
        a <= b,
    ensures
        pow10(a) <= pow10(b),
    decreases b - a,
{
    if a < b {
        lemma_pow10_mono(a, (b - 1) as nat);
        lemma_pow10_grows((b - 1) as nat);
    }
}

/// The position of the first `.` in `s`, or its length when there is none.
pub open spec fn first_dot(s: Seq<char>) -> nat
    decreases s.len(),
{
    if s.len() == 0 {
        0
    } else if s[0] == '.' {
        0
    } else {
        1 + first_dot(s.drop_first())
    }
}

/// What `s` holds once one leading sign is taken off.
pub open spec fn sign_body(s: Seq<char>) -> Seq<char> {
    if s.len() > 0 && (s[0] == '+' || s[0] == '-') {
        s.drop_first()
    } else {
        s
    }
}

pub open spec fn int_part(b: Seq<char>) -> Seq<char> {
    b.subrange(0, first_dot(b) as int)
}

pub open spec fn frac_part(b: Seq<char>) -> Seq<char> {
    if first_dot(b) < b.len() {
        b.subrange(first_dot(b) as int + 1, b.len() as int)
    } else {
        Seq::empty()
    }
}

/// The position of the first `e` or `E` in `s`, or its length when there is none.
pub open spec fn first_exp(s: Seq<char>) -> nat
    decreases s.len(),
{
    if s.len() == 0 {
        0
    } else if s[0] == 'e' || s[0] == 'E' {
        0
    } else {
        1 + first_exp(s.drop_first())
    }
}

/// The part of an unsigned number's text before its exponent marker.
pub open spec fn mantissa(b: Seq<char>) -> Seq<char> {
    b.subrange(0, first_exp(b) as int)
}

/// The part of an unsigned number's text after its exponent marker.
pub open spec fn exponent_text(b: Seq<char>) -> Seq<char> {
    if first_exp(b) < b.len() {
        b.subrange(first_exp(b) as int + 1, b.len() as int)
    } else {
        Seq::empty()
    }
}

/// `s` is a decimal number: an optional sign, then digits with an optional `.`
/// (at least one digit in all), then optionally `e` or `E` with an optionally
/// signed run of digits.
pub open spec fn is_decimal_fraction(s: Seq<char>) -> bool {
    let b = sign_body(s);
    let m = mantissa(b);
    &&& all_digits(int_part(m))
    &&& all_digits(frac_part(m))
    &&& int_part(m).len() + frac_part(m).len() > 0
    &&& first_exp(b) < b.len() ==> sign_body(exponent_text(b)).len() > 0 && all_digits(
        sign_body(exponent_text(b)),
    )
}

/// The exponent of an unsigned number's text; zero when it has none.
pub open spec fn exponent_of(b: Seq<char>) -> int {
    let t = exponent_text(b);
    let v = digits_value(sign_body(t)) as int;
    if first_exp(b) < b.len() && t.len() > 0 && t[0] == '-' {
        -v
    } else if first_exp(b) < b.len() {
        v
    } else {
        0
    }
}

/// The digits of a mantissa without its `.`.
pub open spec fn fraction_digits(m: Seq<char>) -> Seq<char> {
    int_part(m) + frac_part(m)
}

/// The integer part of the number whose digits are `d` and whose integer part
/// has `n` digits (padded with zeros when `d` has fewer).
pub open spec fn scaled(d: Seq<char>, n: int) -> nat {
    if n <= 0 {
        0
    } else if n <= d.len() {
        digits_value(d.subrange(0, n))
    } else {
        digits_value(d) * pow10((n - d.len()) as nat)
    }
}

/// The integer part of the magnitude of the decimal number `s`.
pub open spec fn truncated_magnitude(s: Seq<char>) -> nat {
    let b = sign_body(s);
    let m = mantissa(b);
    scaled(fraction_digits(m), int_part(m).len() + exponent_of(b))
}

/// `c` with an ASCII capital letter lowered.
pub open spec fn ascii_lower(c: char) -> char {
    if 65 <= (c as u32) <= 90 {
        (((c as u32) + 32) as u8) as char
    } else {
        c
    }
}

/// `s` spells `w` when ASCII letter case is ignored.
pub open spec fn same_word(s: Seq<char>, w: Seq<char>) -> bool {
    s.len() == w.len() && forall|i: int| 0 <= i < s.len() ==> ascii_lower(#[trigger] s[i]) == w[i]
}

/// `s` is an optionally signed `inf` or `infinity`, in any letter case.
pub open spec fn is_infinity_text(s: Seq<char>) -> bool {
    same_word(sign_body(s), "inf"@) || same_word(sign_body(s), "infinity"@)
}

pub open spec fn clamp(v: int, lo: int, hi: int) -> int {
    if v < lo {
        lo
    } else if v > hi {
        hi
    } else {
        v
    }
}

/// The integer part of the decimal number `s`, clamped to the range of `isize`.
pub open spec fn truncated_fraction(s: Seq<char>) -> int {
    let m = truncated_magnitude(s) as int;
    if s.len() > 0 && s[0] == '-' {
        clamp(-m, isize::MIN as int, isize::MAX as int)
    } else {
        clamp(m, isize::MIN as int, isize::MAX as int)
    }
}

pub proof fn lemma_digits_value_prefix(s: Seq<char>, k: int)
    requires
        0 <= k <= s.len(),
    ensures
        digits_value(s.subrange(0, k)) <= digits_value(s),
    decreases s.len(),
{
    if k < s.len() {
        assert(s.drop_last().subrange(0, k) =~= s.subrange(0, k));
        lemma_digits_value_prefix(s.drop_last(), k);
    } else {
        assert(s.subrange(0, k) =~= s);
    }
}

pub proof fn lemma_digits_value_step(s: Seq<char>, i: int)
    requires
        0 <= i < s.len(),
    ensures
        digits_value(s.subrange(0, i + 1)) == digits_value(s.subrange(0, i)) * 10 + digit_value(s[i]),
{
    assert(s.subrange(0, i + 1).drop_last() =~= s.subrange(0, i));
}

/// The character of the digit `d`.
pub fn digit_to_char(d: u64) -> (c: char)
    requires
        d < 10,
    ensures
        c == digit_char(d as nat),
{
    ((d + 48) as u8) as char
}

/// The decimal digits of `n`.
pub fn u64_text(n: u64) -> (r: String)
    ensures
        r@ == digits_of(n as nat),
    decreases n,
{
    if n < 10 {
        char_string(digit_to_char(n))
    } else {
        let mut r = u64_text(n / 10);
        push_char(&mut r, digit_to_char(n % 10));
        r
    }
}

/// The canonical decimal text of `n`.
pub fn i64_text(n: i64) -> (r: String)
    ensures
        r@ == decimal(n as int),
{
    if n < 0 {
        let m = (0 - (n as i128)) as u64;
        let d = u64_text(m);
        let mut r = char_string('-');
        crate::value::push_text(&mut r, &d);
        r
    } else {
        u64_text(n as u64)
    }
}

/// The value of the digits `cs[from..to]` when they are all digits, none of them
/// missing, and the value is at most `cap`.
pub fn read_digits(cs: &Vec<char>, from: usize, to: usize, cap: u64) -> (r: Option<u64>)
    requires
        from <= to <= cs@.len(),
    ensures
        r matches Some(v) ==> digits_within(cs@.subrange(from as int, to as int), cap as int) == Some(v as int),
        r is None ==> digits_within(cs@.subrange(from as int, to as int), cap as int) is None,
{
    let ghost s = cs@.subrange(from as int, to as int);
    if from == to {
        return None;
    }
    let mut acc: u64 = 0;
    let mut i: usize = from;
    while i < to
        invariant
            from <= i <= to <= cs@.len(),
            s == cs@.subrange(from as int, to as int),
            all_digits(s.subrange(0, i - from)),
            acc as int == digits_value(s.subrange(0, i - from)),
            acc <= cap,
        decreases to - i,
    {
        let c = cs[i];
        let k = (c as u32);
        proof {
            lemma_digits_value_step(s, i - from);
            assert(s[i - from] == c);
        }
        if k < 48 || k > 57 {
            assert(!all_digits(s)) by {
                assert(!is_digit(s[i - from]));
            }
            return None;
        }
        let d = (k - 48) as u64;
        if d > cap || acc > (cap - d) / 10 {
            proof {
                assert(acc * 10 + d > cap) by (nonlinear_arith)
                    requires d > cap || acc > (cap - d) / 10, acc >= 0;
                if all_digits(s) {
                    lemma_digits_value_prefix(s, i - from + 1);
                }
            }
            return None;
        }
        proof {
            assert(acc * 10 + d <= cap) by (nonlinear_arith)
                requires acc <= (cap - d) / 10, d <= cap;
        }
        acc = acc * 10 + d;
        i = i + 1;
        assert(all_digits(s.subrange(0, i - from))) by {
            assert forall|j: int| 0 <= j < i - from implies is_digit(#[trigger] s.subrange(0, i - from)[j]) by {
                if j < i - from - 1 {
                    assert(s.subrange(0, i - from)[j] == s.subrange(0, i - from - 1)[j]);
                }
            }
        }
    }
    assert(s.subrange(0, to - from) =~= s);
    Some(acc)
}

/// `min(digits_value(cs[from..to]), cap)`, for a run of digits.
pub fn read_digits_saturating(cs: &Vec<char>, from: usize, to: usize, cap: u128) -> (r: u128)
    requires
        from <= to <= cs@.len(),
        all_digits(cs@.subrange(from as int, to as int)),
    ensures
        r as int == clamp(digits_value(cs@.subrange(from as int, to as int)) as int, 0, cap as int),
{
    let ghost s = cs@.subrange(from as int, to as int);
    let mut acc: u128 = 0;
    let mut i: usize = from;
    while i < to
        invariant
            from <= i <= to <= cs@.len(),
            s == cs@.subrange(from as int, to as int),
            all_digits(s),
            acc as int == clamp(digits_value(s.subrange(0, i - from)) as int, 0, cap as int),
        decreases to - i,
    {
        let c = cs[i];
        let ghost x = digits_value(s.subrange(0, i - from)) as int;
        proof {
            lemma_digits_value_step(s, i - from);
            assert(s[i - from] == c);
            assert(is_digit(s[i - from]));
        }
        let d = ((c as u32) - 48) as u128;
        if d > cap || acc > (cap - d) / 10 {
            proof {
                assert(acc * 10 + d > cap) by (nonlinear_arith)
                    requires d > cap || acc > (cap - d) / 10, d <= 9, acc >= 0;
                assert(x * 10 + d >= acc * 10 + d) by (nonlinear_arith)
                    requires x >= acc;
            }
            acc = cap;
        } else {
            proof {
                assert(acc * 10 + d <= cap) by (nonlinear_arith)
                    requires acc <= (cap - d) / 10, d <= cap;
                assert(acc < cap ==> acc == x);
                if acc == cap && x > cap {
                    assert(x * 10 + d > cap) by (nonlinear_arith)
                        requires x > cap, cap >= 0;
                }
                if x <= cap {
                    assert(acc == x);
                }
            }
            acc = acc * 10 + d;
        }
        i = i + 1;
    }
    assert(s.subrange(0, to - from) =~= s);
    acc
}


pub proof fn lemma_first_exp(b: Seq<char>, k: int)
    requires
        0 <= k <= b.len(),
        forall|j: int| 0 <= j < k ==> b[j] != 'e' && b[j] != 'E',
        k == b.len() || b[k] == 'e' || b[k] == 'E',
    ensures
        first_exp(b) == k,
    decreases k,
{
    if k > 0 {
        lemma_first_exp(b.drop_first(), k - 1);
    }
}

/// `min(scaled(d, n), cap)`, for a run of digits `d`.
pub fn scaled_digits(d: &Vec<char>, n: i128, cap: u128) -> (r: u128)
    requires
        all_digits(d@),
        0 < cap < pow10(20),
    ensures
        r as int == clamp(scaled(d@, n as int) as int, 0, cap as int),
{
    if n <= 0 {
        return 0;
    }
    let len = d.len();
    if n <= len as i128 {
        proof {
            assert(all_digits(d@.subrange(0, n as int))) by {
                assert forall|i: int| 0 <= i < n implies is_digit(#[trigger] d@.subrange(0, n as int)[i]) by {
                    assert(d@.subrange(0, n as int)[i] == d@[i]);
                }
            }
        }
        return read_digits_saturating(d, 0, n as usize, cap);
    }
    assert(d@.subrange(0, len as int) =~= d@);
    let dv = read_digits_saturating(d, 0, len, cap);
    let ghost x = digits_value(d@) as int;
    let q: i128 = n - len as i128;
    proof {
        lemma_pow10_grows(q as nat);
    }
    if dv == 0 {
        assert(x == 0);
        assert(x * pow10(q as nat) == 0) by (nonlinear_arith)
            requires x == 0;
        return 0;
    }
    if q >= 20 {
        proof {
            assert(x >= 1);
            assert(x * pow10(q as nat) >= pow10(q as nat)) by (nonlinear_arith)
                requires x >= 1;
        }
        return cap;
    }
    let mut acc: u128 = dv;
    let mut j: i128 = 0;
    assert(pow10(0) == 1);
    assert(x * pow10(0) == x) by (nonlinear_arith)
        requires pow10(0) == 1;
    while j < q
        invariant
            0 <= j <= q,
            x >= 0,
            0 < cap,
            acc as int == clamp(x * pow10(j as nat), 0, cap as int),
        decreases q - j,
    {
        let ghost y = x * pow10(j as nat);
        proof {
            assert(pow10((j + 1) as nat) == 10 * pow10(j as nat));
            assert(x * pow10((j + 1) as nat) == y * 10) by (nonlinear_arith)
                requires pow10((j + 1) as nat) == 10 * pow10(j as nat), y == x * pow10(j as nat);
            assert(y >= 0) by (nonlinear_arith)
                requires x >= 0, pow10(j as nat) >= 0, y == x * pow10(j as nat);
        }
        if acc > cap / 10 {
            proof {
                assert(acc * 10 > cap) by (nonlinear_arith)
                    requires acc > cap / 10, cap > 0;
                assert(y * 10 >= acc * 10) by (nonlinear_arith)
                    requires y >= acc;
            }
            acc = cap;
        } else {
            proof {
                if acc == cap {
                    assert(cap * 10 <= cap) by (nonlinear_arith)
                        requires acc <= cap / 10, acc == cap;
                }
            }
            acc = acc * 10;
            proof {
                if y > cap {
                    assert(false);
                }
            }
        }
        j = j + 1;
    }
    acc
}


/// Two digit counts that both lie more than twenty past the digits, or both at
/// or before their start, give the same clamped integer part.
pub proof fn lemma_scaled_far(d: Seq<char>, a: int, b: int, cap: int)
    requires
        0 < cap < pow10(20),
        (a > d.len() + 20 && b > d.len() + 20) || (a <= 0 && b <= 0),
    ensures
        clamp(scaled(d, a) as int, 0, cap) == clamp(scaled(d, b) as int, 0, cap),
{
    if a > 0 {
        let dv = digits_value(d) as int;
        lemma_pow10_mono(20, (a - d.len()) as nat);
        lemma_pow10_mono(20, (b - d.len()) as nat);
        if dv > 0 {
            assert(dv * pow10((a - d.len()) as nat) >= pow10((a - d.len()) as nat)) by (nonlinear_arith)
                requires dv >= 1;
            assert(dv * pow10((b - d.len()) as nat) >= pow10((b - d.len()) as nat)) by (nonlinear_arith)
                requires dv >= 1;
        } else {
            assert(dv * pow10((a - d.len()) as nat) == 0) by (nonlinear_arith)
                requires dv == 0;
            assert(dv * pow10((b - d.len()) as nat) == 0) by (nonlinear_arith)
                requires dv == 0;
        }
    }
}

} // verus!
