//! A JSON document as plain values, and the pointer-ish path syntax that
//! forecast observables use to name one value inside an artifact.
//!
//! A path is a `/`-separated list of segments (empty segments are skipped).
//! On an object a segment is a key; on an array it is either a decimal index
//! or a `key=value` selector, which picks the first element that is an object
//! whose `key` holds the string `value`.

use vstd::prelude::*;
use crate::forecast::{digit, digit_value, is_digit};
use crate::text::{chars_of, first_index, lemma_first_index, owned, str_eq, sub_string};

verus! {

/// A JSON value. Numbers keep their JSON text; an object keeps its entries
/// in document order with distinct keys.
#[derive(Debug, PartialEq)]
pub enum Json {
    Null,
    Bool(bool),
    Number(String),
    Str(String),
    Array(Vec<Json>),
    Object(Vec<(String, Json)>),
}

/// The segments of `path`: the pieces between `/`, empty pieces dropped.
pub open spec fn path_segments(path: Seq<char>) -> Seq<Seq<char>>
    decreases path.len(),
{
    if path.len() == 0 {
        Seq::empty()
    } else {
        let k = first_index(path, '/');
        let rest = if k < path.len() {
            path_segments(path.skip((k + 1) as int))
        } else {
            Seq::empty()
        };
        if k == 0 {
            rest
        } else {
            seq![path.take(k as int)] + rest
        }
    }
}

/// The value under `key` in an object's entries (the first entry with it).
pub open spec fn object_get(entries: Seq<(String, Json)>, key: Seq<char>) -> Option<Json>
    decreases entries.len(),
{
    if entries.len() == 0 {
        None
    } else if entries[0].0@ == key {
        Some(entries[0].1)
    } else {
        object_get(entries.drop_first(), key)
    }
}

/// `item` is an object whose `key` holds the string `want`.
pub open spec fn selects(item: Json, key: Seq<char>, want: Seq<char>) -> bool {
    match item {
        Json::Object(entries) => match object_get(entries@, key) {
            Some(Json::Str(s)) => s@ == want,
            _ => false,
        },
        _ => false,
    }
}

/// The first of `items` that `selects` picks.
pub open spec fn first_selected(items: Seq<Json>, key: Seq<char>, want: Seq<char>) -> Option<Json>
    decreases items.len(),
{
    if items.len() == 0 {
        None
    } else if selects(items[0], key, want) {
        Some(items[0])
    } else {
        first_selected(items.drop_first(), key, want)
    }
}

/// The value of a run of decimal digits.
pub open spec fn digits_value(d: Seq<char>) -> int
    decreases d.len(),
{
    if d.len() == 0 {
        0
    } else {
        digits_value(d.drop_last()) * 10 + digit_value(d.last())
    }
}

/// The digits of an index segment: one leading `+` is allowed before them.
pub open spec fn index_digits(seg: Seq<char>) -> Seq<char> {
    if seg.len() > 1 && seg[0] == '+' {
        seg.drop_first()
    } else {
        seg
    }
}

/// What `seg` reads as an array index (`usize` parsing): `None` unless it
/// is a non-empty run of digits, after an optional `+`, whose value fits.
pub open spec fn parsed_index(seg: Seq<char>) -> Option<int> {
    let d = index_digits(seg);
    if d.len() > 0 && (forall|i: int| 0 <= i < d.len() ==> is_digit(#[trigger] d[i])) && digits_value(d)
        <= usize::MAX {
        Some(digits_value(d))
    } else {
        None
    }
}

/// One step of a path: `seg` read against `doc`.
pub open spec fn step(doc: Json, seg: Seq<char>) -> Option<Json> {
    match doc {
        Json::Object(entries) => object_get(entries@, seg),
        Json::Array(items) => {
            let k = first_index(seg, '=');
            if k < seg.len() {
                first_selected(items@, seg.take(k as int), seg.skip((k + 1) as int))
            } else {
                match parsed_index(seg) {
                    Some(n) => if n < items@.len() {
                        Some(items@[n])
                    } else {
                        None
                    },
                    None => None,
                }
            }
        },
        _ => None,
    }
}

/// The value reached from `doc` by following `segs` in turn.
pub open spec fn lookup_path(doc: Json, segs: Seq<Seq<char>>) -> Option<Json>
    decreases segs.len(),
{
    if segs.len() == 0 {
        Some(doc)
    } else {
        match step(doc, segs[0]) {
            Some(next) => lookup_path(next, segs.drop_first()),
            None => None,
        }
    }
}

/// The scalar text of a value: strings unquoted, numbers, booleans and null
/// as their JSON text; arrays and objects have none.
pub open spec fn scalar_text(v: Json) -> Option<Seq<char>> {
    match v {
        Json::Str(s) => Some(s@),
        Json::Number(t) => Some(t@),
        Json::Bool(b) => Some(
            if b {
                "true"@
            } else {
                "false"@
            },
        ),
        Json::Null => Some("null"@),
        _ => None,
    }
}

/// The value under `key` among `entries`.
pub fn object_entry<'a>(entries: &'a Vec<(String, Json)>, key: &str) -> (r: Option<&'a Json>)
    ensures
        match r {
            Some(v) => object_get(entries@, key@) == Some(*v),
            None => object_get(entries@, key@) is None,
        },
{
    let mut i: usize = 0;
    proof {
        assert(entries@.skip(0) =~= entries@);
    }
    while i < entries.len()
        invariant
            i <= entries@.len(),
            object_get(entries@, key@) == object_get(entries@.skip(i as int), key@),
        decreases entries@.len() - i,
    {
        proof {
            assert(entries@.skip(i as int)[0] == entries@[i as int]);
        }
        if str_eq(entries[i].0.as_str(), key) {
            return Some(&entries[i].1);
        }
        proof {
            assert(entries@.skip(i as int).drop_first() =~= entries@.skip(i + 1));
        }
        i = i + 1;
    }
    None
}

/// The first element of `items` that is an object whose `key` holds `want`.
pub fn select_item<'a>(items: &'a Vec<Json>, key: &str, want: &str) -> (r: Option<&'a Json>)
    ensures
        match r {
            Some(v) => first_selected(items@, key@, want@) == Some(*v),
            None => first_selected(items@, key@, want@) is None,
        },
{
    let mut i: usize = 0;
    proof {
        assert(items@.skip(0) =~= items@);
    }
    while i < items.len()
        invariant
            i <= items@.len(),
            first_selected(items@, key@, want@) == first_selected(items@.skip(i as int), key@, want@),
        decreases items@.len() - i,
    {
        proof {
            assert(items@.skip(i as int)[0] == items@[i as int]);
        }
        let hit = match &items[i] {
            Json::Object(entries) => match object_entry(entries, key) {
                Some(Json::Str(s)) => str_eq(s.as_str(), want),
                _ => false,
            },
            _ => false,
        };
        if hit {
            return Some(&items[i]);
        }
        proof {
            assert(items@.skip(i as int).drop_first() =~= items@.skip(i + 1));
        }
        i = i + 1;
    }
    None
}

proof fn lemma_digits_monotone(d: Seq<char>, i: int, j: int)
    requires
        0 <= i <= j <= d.len(),
        forall|q: int| 0 <= q < d.len() ==> is_digit(#[trigger] d[q]),
    ensures
        digits_value(d.take(i)) <= digits_value(d.take(j)),
    decreases j - i,
{
    if i < j {
        lemma_digits_monotone(d, i, j - 1);
        assert(d.take(j).drop_last() =~= d.take(j - 1));
        lemma_digits_nonneg(d.take(j - 1));
    }
}

proof fn lemma_digits_nonneg(d: Seq<char>)
    requires
        forall|q: int| 0 <= q < d.len() ==> is_digit(#[trigger] d[q]),
    ensures
        digits_value(d) >= 0,
    decreases d.len(),
{
    if d.len() > 0 {
        lemma_digits_nonneg(d.drop_last());
    }
}

/// `seg` read as an array index, as `usize` parsing reads it.
pub fn parse_index(seg: &Vec<char>) -> (r: Option<usize>)
    ensures
        match r {
            Some(n) => parsed_index(seg@) == Some(n as int),
            None => parsed_index(seg@) is None,
        },
{
    let start: usize = if seg.len() > 1 && seg[0] == '+' {
        1
    } else {
        0
    };
    let ghost d = index_digits(seg@);
    proof {
        assert(d =~= seg@.subrange(start as int, seg@.len() as int));
    }
    if start == seg.len() {
        return None;
    }
    let mut acc: u128 = 0;
    let mut i: usize = start;
    while i < seg.len()
        invariant
            start <= i <= seg@.len(),
            d == seg@.subrange(start as int, seg@.len() as int),
            d == index_digits(seg@),
            forall|q: int| 0 <= q < i - start ==> is_digit(#[trigger] d[q]),
            acc == digits_value(d.take(i - start)),
            acc <= usize::MAX,
        decreases seg@.len() - i,
    {
        let c = seg[i];
        if !('0' <= c && c <= '9') {
            proof {
                assert(!is_digit(d[i - start]));
                assert(!(forall|q: int| 0 <= q < d.len() ==> is_digit(#[trigger] d[q])));
                assert(parsed_index(seg@) is None);
            }
            return None;
        }
        proof {
            assert(d.take(i - start + 1).drop_last() =~= d.take(i - start));
            assert(d.take(i - start + 1).last() == c);
        }
        acc = acc * 10 + digit(c) as u128;
        if acc > usize::MAX as u128 {
            proof {
                if forall|q: int| 0 <= q < d.len() ==> is_digit(#[trigger] d[q]) {
                    lemma_digits_monotone(d, i - start + 1, d.len() as int);
                    assert(d.take(d.len() as int) =~= d);
                }
                assert(parsed_index(seg@) is None);
            }
            return None;
        }
        i = i + 1;
    }
    proof {
        assert(d.take(d.len() as int) =~= d);
    }
    Some(acc as usize)
}

/// One step of a path, `seg` read against `doc`.
pub fn step_into<'a>(doc: &'a Json, seg: &String) -> (r: Option<&'a Json>)
    ensures
        match r {
            Some(v) => step(*doc, seg@) == Some(*v),
            None => step(*doc, seg@) is None,
        },
{
    match doc {
        Json::Object(entries) => object_entry(entries, seg.as_str()),
        Json::Array(items) => {
            let cs = chars_of(seg.as_str());
            let mut k: usize = 0;
            while k < cs.len() && cs[k] != '='
                invariant
                    k <= cs@.len(),
                    forall|q: int| 0 <= q < k ==> cs@[q] != '=',
                decreases cs@.len() - k,
            {
                k = k + 1;
            }
            proof {
                lemma_first_index(cs@, '=', k as int);
            }
            if k < cs.len() {
                let key = sub_string(&cs, 0, k);
                let want = sub_string(&cs, k + 1, cs.len());
                proof {
                    assert(cs@.take(k as int) =~= cs@.subrange(0, k as int));
                    assert(cs@.skip(k + 1) =~= cs@.subrange(k + 1, cs@.len() as int));
                }
                select_item(items, key.as_str(), want.as_str())
            } else {
                match parse_index(&cs) {
                    Some(n) => if n < items.len() {
                        Some(&items[n])
                    } else {
                        None
                    },
                    None => None,
                }
            }
        },
        _ => None,
    }
}

/// Walk `field` through `doc`; `None` on any miss.
pub fn lookup_field<'a>(doc: &'a Json, field: &str) -> (r: Option<&'a Json>)
    ensures
        match r {
            Some(v) => lookup_path(*doc, path_segments(field@)) == Some(*v),
            None => lookup_path(*doc, path_segments(field@)) is None,
        },
{
    let cs = chars_of(field);
    let n = cs.len();
    let mut cur: &Json = doc;
    let mut pos: usize = 0;
    proof {
        assert(cs@.skip(0) =~= cs@);
    }
    while pos < n
        invariant
            pos <= n == cs@.len(),
            cs@ == field@,
            lookup_path(*doc, path_segments(cs@)) == lookup_path(*cur, path_segments(cs@.skip(pos as int))),
        decreases n - pos,
    {
        let mut j: usize = pos;
        while j < n && cs[j] != '/'
            invariant
                pos <= j <= n == cs@.len(),
                forall|q: int| pos <= q < j ==> cs@[q] != '/',
            decreases n - j,
        {
            j = j + 1;
        }
        let ghost t = cs@.skip(pos as int);
        let ghost k = j - pos;
        proof {
            assert forall|q: int| 0 <= q < k implies t[q] != '/' by {
                assert(t[q] == cs@[pos + q]);
            }
            if j < n {
                assert(t[k] == cs@[j as int]);
            }
            lemma_first_index(t, '/', k);
            assert(t.take(k) =~= cs@.subrange(pos as int, j as int));
            if j < n {
                assert(t.skip(k + 1) =~= cs@.skip(j + 1));
            }
        }
        let ghost rest = if j < n {
            path_segments(cs@.skip(j + 1))
        } else {
            Seq::<Seq<char>>::empty()
        };
        if j > pos {
            let seg = sub_string(&cs, pos, j);
            proof {
                let segs = seq![seg@] + rest;
                assert(path_segments(t) == segs);
                assert(segs[0] == seg@);
                assert(segs.drop_first() =~= rest);
            }
            match step_into(cur, &seg) {
                Some(next) => {
                    cur = next;
                },
                None => {
                    return None;
                },
            }
        }
        if j < n {
            pos = j + 1;
        } else {
            pos = n;
            proof {
                assert(cs@.skip(n as int) =~= Seq::<char>::empty());
            }
        }
    }
    proof {
        assert(cs@.skip(n as int) =~= Seq::<char>::empty());
    }
    Some(cur)
}

/// The scalar text of `v`, when it has one.
pub fn scalar_string(v: &Json) -> (r: Option<String>)
    ensures
        match r {
            Some(s) => scalar_text(*v) == Some(s@),
            None => scalar_text(*v) is None,
        },
{
    match v {
        Json::Str(s) => Some(owned(s.as_str())),
        Json::Number(t) => Some(owned(t.as_str())),
        Json::Bool(b) => if *b {
            Some(owned("true"))
        } else {
            Some(owned("false"))
        },
        Json::Null => Some(owned("null")),
        _ => None,
    }
}

/// `serde_json`'s document type, carried through opaquely.
#[verifier::external_type_specification]
#[verifier::external_body]
pub struct ExJsonValue(serde_json::Value);

/// The document `serde_json::from_str` parses out of `text` (as the library's
/// plain `Json`, numbers in `serde_json`'s own decimal text, object keys in
/// its map order), or `None` where it refuses the text.
pub uninterp spec fn parsed_json(text: Seq<char>) -> Option<Json>;

/// Converts a `serde_json::Value` to the library's `Json`, one variant for
/// one variant: numbers by their `Display` text, objects in `serde_json::Map`
/// iteration order.
#[verifier::external_body]
fn json_of_value(v: &serde_json::Value) -> Json {
    match v {
        serde_json::Value::Null => Json::Null,
        serde_json::Value::Bool(b) => Json::Bool(*b),
        serde_json::Value::Number(n) => Json::Number(n.to_string()),
        serde_json::Value::String(s) => Json::Str(s.clone()),
        serde_json::Value::Array(items) => Json::Array(items.iter().map(json_of_value).collect()),
        serde_json::Value::Object(map) => Json::Object(
            map.iter().map(|(k, x)| (k.clone(), json_of_value(x))).collect(),
        ),
    }
}

/// `serde_json::from_str::<serde_json::Value>`: the claim is only that the
/// result is a function of the text (`parsed_json`), `None` where serde_json
/// returns an error. What it accepts and how it reads a document are not
/// restated here.
#[verifier::external_body]
fn parse_json(text: &str) -> (r: Option<Json>)
    ensures
        r == parsed_json(text@),
{
    serde_json::from_str::<serde_json::Value>(text).ok().map(|v| json_of_value(&v))
}

/// The artifact document read from its raw text: absent text (an unreadable
/// artifact) or text serde_json refuses both give no document.
pub open spec fn artifact_parsed(text: Option<&str>) -> Option<Json> {
    match text {
        Some(t) => parsed_json(t@),
        None => None,
    }
}

/// Parse an artifact's raw text, if there was any, into a document.
pub fn parse_artifact(text: Option<&str>) -> (r: Option<Json>)
    ensures
        r == artifact_parsed(text),
{
    match text {
        Some(t) => parse_json(t),
        None => None,
    }
}

} // verus!
