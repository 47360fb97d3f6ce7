//! Paths: the segments that a path string or value stands for.

use vstd::prelude::*;
use vstd::string::*;
use crate::value::{Json, Value, group_value_views, seq_json, str_chars, string_of_chars};
use crate::lang::{text_of, value_text};

verus! {

/// Where the path scanner stands: the segments read so far, the segment being
/// read, the last character seen, whether it is inside brackets, and whether it
/// has stopped.
pub struct PathScan {
    pub segs: Seq<Seq<char>>,
    pub cur: Seq<char>,
    pub prev: Option<char>,
    pub in_square: bool,
    pub stopped: bool,
}

/// `cur` with one matching pair of quotes around it taken off.
pub open spec fn unquote(cur: Seq<char>) -> Seq<char> {
    if cur.len() >= 2 && ((cur[0] == '"' && cur.last() == '"') || (cur[0] == '\'' && cur.last() == '\'')) {
        cur.subrange(1, cur.len() - 1)
    } else {
        cur
    }
}

/// One step of the scanner on the character `c`.
pub open spec fn scan_step(st: PathScan, c: char) -> PathScan {
    if c == '.' {
        if st.in_square {
            PathScan { cur: st.cur.push(c), prev: Some(c), ..st }
        } else if st.prev != Some(']') {
            PathScan { segs: st.segs.push(st.cur), cur: Seq::empty(), prev: Some(c), ..st }
        } else {
            PathScan { prev: Some(c), ..st }
        }
    } else if c == '[' {
        if st.cur.len() > 0 {
            PathScan { segs: st.segs.push(st.cur), cur: Seq::empty(), prev: Some(c), in_square: true, ..st }
        } else {
            PathScan { prev: Some(c), in_square: true, ..st }
        }
    } else if c == ']' {
        if st.prev == Some(']') {
            PathScan { in_square: false, stopped: true, ..st }
        } else {
            PathScan {
                segs: st.segs.push(unquote(st.cur)),
                cur: Seq::empty(),
                prev: Some(c),
                in_square: false,
                ..st
            }
        }
    } else {
        PathScan { cur: st.cur.push(c), prev: Some(c), ..st }
    }
}

/// The scanner's state after the characters `s`.
pub open spec fn scan(s: Seq<char>) -> PathScan
    decreases s.len(),
{
    if s.len() == 0 {
        PathScan { segs: Seq::empty(), cur: Seq::empty(), prev: None, in_square: false, stopped: false }
    } else {
        let st = scan(s.drop_last());
        if st.stopped {
            st
        } else {
            scan_step(st, s.last())
        }
    }
}

/// The segments of a path string: split at `.`, with `[...]` as a segment of
/// its own (quotes around its content taken off), a `.` after `]` absorbed, and
/// a run `]]` ending the path.
pub open spec fn path_segments(s: Seq<char>) -> Seq<Seq<char>> {
    let st = scan(s);
    if st.prev == Some('.') || st.cur.len() > 0 {
        st.segs.push(st.cur)
    } else {
        st.segs
    }
}

/// The path that a value stands for.
pub open spec fn path_of(j: Json) -> Seq<Seq<char>> {
    match j {
        Json::Null => Seq::empty(),
        Json::Str(s) => path_segments(s),
        Json::Arr(a) => Seq::new(a.len(), |i: int| text_of(a[i])),
        _ => seq![text_of(j)],
    }
}

/// The texts of a sequence of strings.
pub open spec fn texts(v: Seq<String>) -> Seq<Seq<char>> {
    Seq::new(v.len(), |i: int| v[i]@)
}

/// The string values of a sequence of texts.
pub open spec fn string_jsons(t: Seq<Seq<char>>) -> Seq<Json> {
    Seq::new(t.len(), |i: int| Json::Str(t[i]))
}

proof fn lemma_texts_push(v: Seq<String>, x: String)
    ensures
        texts(v.push(x)) == texts(v).push(x@),
{
    assert(texts(v.push(x)) =~= texts(v).push(x@));
}

/// Splits a path string into its segments.
pub fn x_to_path_x(s: &str) -> (r: Vec<String>)
    ensures
        texts(r@) == path_segments(s@),
{
    let cs = str_chars(s);
    let n = cs.len();
    let mut segs: Vec<String> = Vec::new();
    let mut cur: Vec<char> = Vec::new();
    let mut prev: Option<char> = None;
    let mut in_square = false;
    let mut stopped = false;
    let mut i: usize = 0;
    assert(cs@.subrange(0, 0) =~= Seq::<char>::empty());
    assert(texts(segs@) =~= Seq::<Seq<char>>::empty());
    assert(cur@ =~= Seq::<char>::empty());
    while i < n && !stopped
        invariant
            i <= n == cs@.len(),
            cs@ == s@,
            scan(cs@.subrange(0, i as int)) == (PathScan {
                segs: texts(segs@),
                cur: cur@,
                prev: prev,
                in_square: in_square,
                stopped: stopped,
            }),
            stopped ==> forall|k: int| i <= k <= n ==> #[trigger] scan(cs@.subrange(0, k)) == scan(cs@.subrange(0, i as int)),
        decreases n - i,
    {
        let c = cs[i];
        assert(cs@.subrange(0, i + 1).drop_last() =~= cs@.subrange(0, i as int));
        if c == '.' {
            if in_square {
                cur.push(c);
            } else if prev != Some(']') {
                let t = string_of_chars(&cur, 0, cur.len());
                proof {
                    assert(cur@.subrange(0, cur@.len() as int) =~= cur@);
                    lemma_texts_push(segs@, t);
                }
                segs.push(t);
                cur = Vec::new();
            }
            prev = Some(c);
        } else if c == '[' {
            in_square = true;
            if cur.len() > 0 {
                let t = string_of_chars(&cur, 0, cur.len());
                proof {
                    assert(cur@.subrange(0, cur@.len() as int) =~= cur@);
                    lemma_texts_push(segs@, t);
                }
                segs.push(t);
                cur = Vec::new();
            }
            prev = Some(c);
        } else if c == ']' {
            in_square = false;
            if prev == Some(']') {
                stopped = true;
                proof {
                    assert forall|k: int| i + 1 <= k <= n implies #[trigger] scan(cs@.subrange(0, k))
                        == scan(cs@.subrange(0, i + 1)) by {
                        lemma_scan_stopped(cs@, i + 1, k);
                    }
                }
            } else {
                let len = cur.len();
                let t = if len >= 2 && ((cur[0] == '"' && cur[len - 1] == '"') || (cur[0] == '\''
                    && cur[len - 1] == '\'')) {
                    string_of_chars(&cur, 1, len - 1)
                } else {
                    string_of_chars(&cur, 0, len)
                };
                proof {
                    assert(cur@.subrange(0, len as int) =~= cur@);
                    lemma_texts_push(segs@, t);
                }
                segs.push(t);
                cur = Vec::new();
                prev = Some(c);
            }
        } else {
            cur.push(c);
            prev = Some(c);
        }
        i = i + 1;
        assert(cur@ =~= scan(cs@.subrange(0, i as int)).cur);
    }
    if i < n {
        assert(scan(cs@.subrange(0, n as int)) == scan(cs@.subrange(0, i as int)));
    }
    assert(cs@.subrange(0, n as int) =~= cs@);
    if prev == Some('.') || cur.len() > 0 {
        let t = string_of_chars(&cur, 0, cur.len());
        proof {
            assert(cur@.subrange(0, cur@.len() as int) =~= cur@);
            lemma_texts_push(segs@, t);
        }
        segs.push(t);
    }
    segs
}

proof fn lemma_scan_stopped(s: Seq<char>, i: int, k: int)
    requires
        0 <= i <= k <= s.len(),
        scan(s.subrange(0, i)).stopped,
    ensures
        scan(s.subrange(0, k)) == scan(s.subrange(0, i)),
    decreases k - i,
{
    if k > i {
        lemma_scan_stopped(s, i, k - 1);
        assert(s.subrange(0, k).drop_last() =~= s.subrange(0, k - 1));
    }
}

/// String values of the texts `segs`.
fn string_values(segs: Vec<String>) -> (r: Vec<Value>)
    ensures
        seq_json(r@) == string_jsons(texts(segs@)),
{
    broadcast use group_value_views;

    let mut r: Vec<Value> = Vec::new();
    let mut i: usize = 0;
    while i < segs.len()
        invariant
            i <= segs@.len(),
            r@.len() == i,
            seq_json(r@) =~= string_jsons(texts(segs@.subrange(0, i as int))),
        decreases segs@.len() - i,
    {
        let x = Value::String(segs[i].clone());
        assert(x@ == Json::Str(segs@[i as int]@));
        let ghost r0 = r@;
        r.push(x);
        assert(seq_json(r@) == seq_json(r0).push(x@));
        i = i + 1;
        assert(seq_json(r@) =~= string_jsons(texts(segs@.subrange(0, i as int))));
    }
    assert(segs@.subrange(0, segs@.len() as int) =~= segs@);
    r
}

/// Splits a path string into its segments, as an array value.
pub fn x_to_path(s: &str) -> (r: Value)
    ensures
        r@ == Json::Arr(string_jsons(path_segments(s@))),
{
    broadcast use group_value_views;

    Value::Array(string_values(x_to_path_x(s)))
}

/// The path that `value` stands for, as strings.
pub fn path_strings(value: &Value) -> (r: Vec<String>)
    ensures
        texts(r@) == path_of(value@),
{
    broadcast use group_value_views;

    match value {
        Value::Null => Vec::new(),
        Value::String(s) => x_to_path_x(s.as_str()),
        Value::Array(vec) => {
            let mut r: Vec<String> = Vec::new();
            let mut i: usize = 0;
            while i < vec.len()
                invariant
                    i <= vec@.len(),
                    value@ == Json::Arr(seq_json(vec@)),
                    texts(r@) =~= Seq::new(i as nat, |j: int| text_of(vec@[j]@)),
                decreases vec@.len() - i,
            {
                let t = value_text(&vec[i]);
                proof {
                    lemma_texts_push(r@, t);
                }
                r.push(t);
                i = i + 1;
                assert(texts(r@) =~= Seq::new(i as nat, |j: int| text_of(vec@[j]@)));
            }
            r
        },
        _ => {
            let t = value_text(value);
            let mut r: Vec<String> = Vec::new();
            r.push(t);
            assert(texts(r@) =~= seq![t@]);
            r
        },
    }
}

/// The path that `value` stands for, as strings.
pub fn to_path_x(value: Value) -> (r: Vec<String>)
    ensures
        texts(r@) == path_of(value@),
{
    path_strings(&value)
}

/// The path that `value` stands for, as an array of strings.
pub fn to_path(value: Value) -> (r: Value)
    ensures
        r@ == Json::Arr(string_jsons(path_of(value@))),
{
    broadcast use group_value_views;

    Value::Array(string_values(path_strings(&value)))
}

} // verus!
