//! One NDJSON line as a row: a bare JSON array of numbers, or an object
//! whose `x`/`features`/`data`/`values` member holds them, with an optional
//! label in `label`/`labels`/`target`/`class`/`y`.

use vstd::prelude::*;
use serde_json::Value;
use crate::dataset::DatasetError;
use crate::dataset::stream::ndjson::{blank_bytes, is_blank};

verus! {

/// A member of a JSON object, as a row reads it: its key, its elements'
/// numbers when it is an array, and its text (a string's contents, or the
/// compact JSON of any other value).
pub struct JsonMember {
    pub key: String,
    /// Each element's value as an `f64` bit pattern, `None` for an element
    /// that is not a number; `None` altogether when the value is not an
    /// array.
    pub array: Option<Vec<Option<u64>>>,
    pub text: String,
}

/// A JSON line, as a row reads it.
pub enum JsonRow {
    /// A top-level array: each element as an `f64` bit pattern, `None` for
    /// an element that is not a number.
    Array(Vec<Option<u64>>),
    /// A top-level object: its members in the map's order.
    Object(Vec<JsonMember>),
    /// Any other JSON value.
    Other,
}

/// Plain-value form of a member.
pub struct MemberView {
    pub key: Seq<char>,
    pub array: Option<Seq<Option<u64>>>,
    pub text: Seq<char>,
}

/// Plain-value form of a JSON line.
pub enum JsonRowView {
    Array(Seq<Option<u64>>),
    Object(Seq<MemberView>),
    Other,
}

pub open spec fn member_view(m: JsonMember) -> MemberView {
    MemberView {
        key: m.key@,
        array: match m.array {
            Some(v) => Some(v@),
            None => None,
        },
        text: m.text@,
    }
}

pub open spec fn json_row_view(j: JsonRow) -> JsonRowView {
    match j {
        JsonRow::Array(v) => JsonRowView::Array(v@),
        JsonRow::Object(ms) => JsonRowView::Object(ms@.map_values(|m: JsonMember| member_view(m))),
        JsonRow::Other => JsonRowView::Other,
    }
}

/// What `serde_json` reads a line as: the row view of the JSON value, or
/// the parser's error message.
pub uninterp spec fn json_row(line: Seq<u8>) -> Result<JsonRowView, Seq<char>>;

/// `serde_json::from_slice::<Value>` of a line, read as a row: array
/// elements through `Value::as_f64` (as bit patterns), object members with
/// `Value::as_array` and their text (`Value::to_string` unless a string).
#[verifier::external_body]
fn read_json_row(line: &[u8]) -> (r: Result<JsonRow, String>)
    ensures
        match r {
            Ok(j) => json_row(line@) == Ok::<JsonRowView, Seq<char>>(json_row_view(j)),
            Err(m) => json_row(line@) == Err::<JsonRowView, Seq<char>>(m@),
        },
{
    let value: Value = serde_json::from_slice(line).map_err(|e| e.to_string())?;
    let bits = |a: &Vec<Value>| a.iter().map(|x| x.as_f64().map(|n| n.to_bits())).collect();
    let member = |(k, v): (&String, &Value)| JsonMember {
        key: k.clone(),
        array: v.as_array().map(bits),
        text: v.as_str().map_or_else(|| v.to_string(), String::from),
    };
    Ok(match value {
        Value::Array(a) => JsonRow::Array(bits(&a)),
        Value::Object(map) => JsonRow::Object(map.iter().map(member).collect()),
        _ => JsonRow::Other,
    })
}

/// A decoded row: its feature values as `f64` bit patterns and its label.
pub struct RowText {
    pub values: Vec<u64>,
    pub label: Option<String>,
}

pub struct RowTextView {
    pub values: Seq<u64>,
    pub label: Option<Seq<char>>,
}

pub open spec fn row_text_view(r: RowText) -> RowTextView {
    RowTextView {
        values: r.values@,
        label: match r.label {
            Some(s) => Some(s@),
            None => None,
        },
    }
}

/// The first member with key `key`.
pub open spec fn member_named(ms: Seq<MemberView>, key: Seq<char>) -> Option<MemberView>
    decreases ms.len(),
{
    if ms.len() == 0 {
        None
    } else if ms[0].key == key {
        Some(ms[0])
    } else {
        member_named(ms.drop_first(), key)
    }
}

/// The member under the first of `keys` that the object has.
pub open spec fn first_member(ms: Seq<MemberView>, keys: Seq<Seq<char>>) -> Option<MemberView>
    decreases keys.len(),
{
    if keys.len() == 0 {
        None
    } else {
        match member_named(ms, keys[0]) {
            Some(m) => Some(m),
            None => first_member(ms, keys.drop_first()),
        }
    }
}

pub open spec fn feature_keys() -> Seq<Seq<char>> {
    seq!["x"@, "features"@, "data"@, "values"@]
}

pub open spec fn label_keys() -> Seq<Seq<char>> {
    seq!["label"@, "labels"@, "target"@, "class"@, "y"@]
}

/// All elements are numbers: their bit patterns.
pub open spec fn all_numbers(els: Seq<Option<u64>>) -> Option<Seq<u64>>
    decreases els.len(),
{
    if els.len() == 0 {
        Some(Seq::empty())
    } else {
        match (all_numbers(els.drop_last()), els.last()) {
            (Some(prev), Some(b)) => Some(prev.push(b)),
            _ => None,
        }
    }
}

/// The row a JSON line holds, or the message for a line that is no row.
pub open spec fn row_of(j: JsonRowView) -> Result<RowTextView, Seq<char>> {
    let (els, label): (Option<Seq<Option<u64>>>, Option<Seq<char>>) = match j {
        JsonRowView::Array(els) => (Some(els), None),
        JsonRowView::Object(ms) => (
            match first_member(ms, feature_keys()) {
                Some(m) => m.array,
                None => None,
            },
            match first_member(ms, label_keys()) {
                Some(m) => Some(m.text),
                None => None,
            },
        ),
        JsonRowView::Other => (None, None),
    };
    if j is Other {
        Err("NDJSON row must be a JSON array or object"@)
    } else {
        match els {
            None => Err("NDJSON row object needs an array field (x/features/data/values)"@),
            Some(e) => match all_numbers(e) {
                None => Err("NDJSON feature values must be numbers"@),
                Some(vals) => Ok(RowTextView { values: vals, label }),
            },
        }
    }
}

/// What an NDJSON line gives: nothing for a blank line, else its row or
/// the error that the line is not one.
pub open spec fn line_row(line: Seq<u8>) -> Result<Option<RowTextView>, Seq<char>> {
    if is_blank(line) {
        Ok(None)
    } else {
        match json_row(line) {
            Err(e) => Err("invalid NDJSON row: "@ + e),
            Ok(j) => match row_of(j) {
                Err(m) => Err(m),
                Ok(r) => Ok(Some(r)),
            },
        }
    }
}

fn member_index(ms: &Vec<JsonMember>, key: &str) -> (r: Option<usize>)
    ensures
        ({
            let mv = ms@.map_values(|m: JsonMember| member_view(m));
            match member_named(mv, key@) {
                Some(m) => r matches Some(i) && i < ms@.len() && mv[i as int] == m,
                None => r is None,
            }
        }),
{
    let ghost mv = ms@.map_values(|m: JsonMember| member_view(m));
    let mut i: usize = 0;
    proof {
        assert(mv.skip(0) =~= mv);
    }
    while i < ms.len()
        invariant
            i <= ms@.len(),
            mv == ms@.map_values(|m: JsonMember| member_view(m)),
            member_named(mv, key@) == member_named(mv.skip(i as int), key@),
        decreases ms@.len() - i,
    {
        proof {
            assert(mv.skip(i as int)[0] == mv[i as int]);
            assert(mv.skip(i as int).drop_first() =~= mv.skip(i + 1));
        }
        if crate::text::str_eq(ms[i].key.as_str(), key) {
            return Some(i);
        }
        i = i + 1;
    }
    proof {
        assert(mv.skip(i as int).len() == 0);
    }
    None
}

fn first_index(ms: &Vec<JsonMember>, keys: &Vec<&str>) -> (r: Option<usize>)
    ensures
        ({
            let mv = ms@.map_values(|m: JsonMember| member_view(m));
            let kv = keys@.map_values(|k: &str| k@);
            match first_member(mv, kv) {
                Some(m) => r matches Some(i) && i < ms@.len() && mv[i as int] == m,
                None => r is None,
            }
        }),
{
    let ghost mv = ms@.map_values(|m: JsonMember| member_view(m));
    let ghost kv = keys@.map_values(|k: &str| k@);
    let mut j: usize = 0;
    proof {
        assert(kv.skip(0) =~= kv);
    }
    while j < keys.len()
        invariant
            j <= keys@.len(),
            mv == ms@.map_values(|m: JsonMember| member_view(m)),
            kv == keys@.map_values(|k: &str| k@),
            first_member(mv, kv) == first_member(mv, kv.skip(j as int)),
        decreases keys@.len() - j,
    {
        proof {
            assert(kv.skip(j as int)[0] == keys@[j as int]@);
            assert(kv.skip(j as int).drop_first() =~= kv.skip(j + 1));
        }
        match member_index(ms, keys[j]) {
            Some(i) => {
                return Some(i);
            },
            None => {},
        }
        j = j + 1;
    }
    proof {
        assert(kv.skip(j as int).len() == 0);
    }
    None
}

fn numbers(els: &Vec<Option<u64>>) -> (r: Option<Vec<u64>>)
    ensures
        match all_numbers(els@) {
            Some(v) => r matches Some(w) && w@ == v,
            None => r is None,
        },
{
    let mut out: Vec<u64> = Vec::new();
    let mut i: usize = 0;
    proof {
        assert(els@.take(0) =~= Seq::<Option<u64>>::empty());
    }
    while i < els.len()
        invariant
            i <= els@.len(),
            all_numbers(els@.take(i as int)) == Some(out@),
        decreases els@.len() - i,
    {
        proof {
            assert(els@.take(i + 1).drop_last() =~= els@.take(i as int));
            assert(els@.take(i + 1).last() == els@[i as int]);
        }
        match els[i] {
            Some(b) => out.push(b),
            None => {
                proof {
                    lemma_numbers_fail(els@, i + 1);
                }
                return None;
            },
        }
        i = i + 1;
    }
    proof {
        assert(els@.take(i as int) =~= els@);
    }
    Some(out)
}

proof fn lemma_numbers_fail(els: Seq<Option<u64>>, n: int)
    requires
        0 < n <= els.len(),
        all_numbers(els.take(n)) is None,
    ensures
        all_numbers(els) is None,
    decreases els.len() - n,
{
    if n < els.len() {
        assert(els.take(n + 1).drop_last() =~= els.take(n));
        lemma_numbers_fail(els, n + 1);
    } else {
        assert(els.take(n) =~= els);
    }
}

fn feature_key_list() -> (r: Vec<&'static str>)
    ensures
        r@.map_values(|k: &str| k@) == feature_keys(),
{
    let r = vec!["x", "features", "data", "values"];
    proof {
        assert(r@.map_values(|k: &str| k@) =~= feature_keys());
    }
    r
}

fn label_key_list() -> (r: Vec<&'static str>)
    ensures
        r@.map_values(|k: &str| k@) == label_keys(),
{
    let r = vec!["label", "labels", "target", "class", "y"];
    proof {
        assert(r@.map_values(|k: &str| k@) =~= label_keys());
    }
    r
}

/// The row a JSON line holds.
pub fn row_from_json(j: &JsonRow) -> (r: Result<RowText, String>)
    ensures
        match row_of(json_row_view(*j)) {
            Ok(v) => r matches Ok(t) && row_text_view(t) == v,
            Err(m) => r matches Err(e) && e@ == m,
        },
{
    let (els, label): (Option<&Vec<Option<u64>>>, Option<String>) = match j {
        JsonRow::Array(els) => (Some(els), None),
        JsonRow::Object(ms) => {
            let ghost mv = ms@.map_values(|m: JsonMember| member_view(m));
            let fk = feature_key_list();
            let lk = label_key_list();
            let els = match first_index(ms, &fk) {
                Some(i) => match &ms[i].array {
                    Some(a) => Some(a),
                    None => None,
                },
                None => None,
            };
            let label = match first_index(ms, &lk) {
                Some(i) => Some(ms[i].text.clone()),
                None => None,
            };
            (els, label)
        },
        JsonRow::Other => {
            return Err(String::from_str("NDJSON row must be a JSON array or object"));
        },
    };
    match els {
        None => Err(String::from_str("NDJSON row object needs an array field (x/features/data/values)")),
        Some(e) => match numbers(e) {
            None => Err(String::from_str("NDJSON feature values must be numbers")),
            Some(values) => Ok(RowText { values, label }),
        },
    }
}

/// Decode one NDJSON line: nothing for a blank line, else its row, or a
/// format error for a line that is not JSON or not a row.
pub fn parse_row_line(line: &[u8]) -> (r: Result<Option<RowText>, DatasetError>)
    ensures
        match line_row(line@) {
            Ok(None) => r matches Ok(None),
            Ok(Some(v)) => r matches Ok(Some(t)) && row_text_view(t) == v,
            Err(m) => r matches Err(DatasetError::Format(e)) && e@ == m,
        },
{
    if blank_bytes(line) {
        return Ok(None);
    }
    match read_json_row(line) {
        Err(e) => {
            let mut m = String::from_str("invalid NDJSON row: ");
            m.append(e.as_str());
            Err(DatasetError::Format(m))
        },
        Ok(j) => match row_from_json(&j) {
            Err(m) => Err(DatasetError::Format(m)),
            Ok(t) => Ok(Some(t)),
        },
    }
}

/// The priority of a member key as the holder of a row's features: `x`,
/// then `features`, `data`, `values`; 4 for any other key.
pub open spec fn feature_rank(k: Seq<char>) -> int {
    if k == "x"@ {
        0
    } else if k == "features"@ {
        1
    } else if k == "data"@ {
        2
    } else if k == "values"@ {
        3
    } else {
        4
    }
}

/// The priority of a member key as the holder of a row's label: `label`,
/// then `labels`, `target`, `class`, `y`; 5 for any other key.
pub open spec fn label_rank(k: Seq<char>) -> int {
    if k == "label"@ {
        0
    } else if k == "labels"@ {
        1
    } else if k == "target"@ {
        2
    } else if k == "class"@ {
        3
    } else if k == "y"@ {
        4
    } else {
        5
    }
}

/// Member `i` is the one a row reads under `rank`: its key ranks below
/// `none`, no member's key ranks better, and no earlier member has its key.
pub open spec fn chosen(ms: Seq<MemberView>, i: int, rank: spec_fn(Seq<char>) -> int, none: int) -> bool {
    &&& 0 <= i < ms.len()
    &&& rank(ms[i].key) < none
    &&& forall|j: int| 0 <= j < ms.len() ==> rank(#[trigger] ms[j].key) >= rank(ms[i].key)
    &&& forall|j: int| 0 <= j < i ==> (#[trigger] ms[j]).key != ms[i].key
}

proof fn lemma_member_named_first(ms: Seq<MemberView>, key: Seq<char>, i: int)
    requires
        0 <= i < ms.len(),
        ms[i].key == key,
        forall|j: int| 0 <= j < i ==> (#[trigger] ms[j]).key != key,
    ensures
        member_named(ms, key) == Some(ms[i]),
    decreases i,
{
    if i > 0 {
        let d = ms.drop_first();
        assert forall|j: int| 0 <= j < i - 1 implies (#[trigger] d[j]).key != key by {
            assert(d[j] == ms[j + 1]);
        }
        assert(ms[0].key != key);
        lemma_member_named_first(d, key, i - 1);
    }
}

proof fn lemma_member_named_none(ms: Seq<MemberView>, key: Seq<char>)
    requires
        forall|j: int| 0 <= j < ms.len() ==> (#[trigger] ms[j]).key != key,
    ensures
        member_named(ms, key) is None,
    decreases ms.len(),
{
    if ms.len() > 0 {
        let d = ms.drop_first();
        assert forall|j: int| 0 <= j < d.len() implies (#[trigger] d[j]).key != key by {
            assert(d[j] == ms[j + 1]);
        }
        assert(ms[0].key != key);
        lemma_member_named_none(d, key);
    }
}

/// The member a list of keys picks: with `i` chosen by the rank that lists
/// `keys` in order, `first_member` gives member `i`; with no member ranked,
/// it gives none.
proof fn lemma_first_member_ranked(ms: Seq<MemberView>, keys: Seq<Seq<char>>, rank: spec_fn(Seq<char>) -> int)
    requires
        forall|r: int| 0 <= r < keys.len() ==> rank(#[trigger] keys[r]) == r,
        forall|k: Seq<char>| 0 <= #[trigger] rank(k) < keys.len() ==> keys[rank(k)] == k,
        forall|k: Seq<char>| #[trigger] rank(k) >= 0,
    ensures
        forall|i: int| chosen(ms, i, rank, keys.len() as int) ==> first_member(ms, keys) == Some(ms[i]),
        (forall|j: int| 0 <= j < ms.len() ==> rank(#[trigger] ms[j].key) >= keys.len()) ==> first_member(ms, keys) is None,
    decreases keys.len(),
{
    if keys.len() > 0 {
        let rest = keys.drop_first();
        let rank2 = |k: Seq<char>| rank(k) - 1;
        let rank3 = |k: Seq<char>| if rank(k) == 0 { keys.len() as int } else { rank(k) - 1 };
        assert forall|r: int| 0 <= r < rest.len() implies rank3(#[trigger] rest[r]) == r by {
            assert(rest[r] == keys[r + 1]);
        }
        assert forall|k: Seq<char>| 0 <= #[trigger] rank3(k) < rest.len() implies rest[rank3(k)] == k by {
            assert(rest[rank3(k)] == keys[rank(k)]);
        }
        lemma_first_member_ranked(ms, rest, rank3);
        assert forall|i: int| chosen(ms, i, rank, keys.len() as int) implies first_member(ms, keys) == Some(ms[i]) by {
            if rank(ms[i].key) == 0 {
                assert(keys[0] == ms[i].key);
                lemma_member_named_first(ms, keys[0], i);
            } else {
                assert forall|j: int| 0 <= j < ms.len() implies (#[trigger] ms[j]).key != keys[0] by {
                    assert(rank(ms[j].key) >= rank(ms[i].key));
                }
                lemma_member_named_none(ms, keys[0]);
                assert forall|j: int| 0 <= j < ms.len() implies rank3(#[trigger] ms[j].key) >= rank3(ms[i].key) by {
                    assert(rank(ms[j].key) >= rank(ms[i].key));
                }
                assert(chosen(ms, i, rank3, rest.len() as int));
            }
        }
        if forall|j: int| 0 <= j < ms.len() ==> rank(#[trigger] ms[j].key) >= keys.len() {
            assert forall|j: int| 0 <= j < ms.len() implies (#[trigger] ms[j]).key != keys[0] by {
                assert(rank(ms[j].key) >= keys.len());
            }
            lemma_member_named_none(ms, keys[0]);
            assert forall|j: int| 0 <= j < ms.len() implies rank3(#[trigger] ms[j].key) >= rest.len() by {
                assert(rank(ms[j].key) >= keys.len());
            }
        }
    }
}

proof fn lemma_all_numbers(els: Seq<Option<u64>>)
    requires
        forall|k: int| 0 <= k < els.len() ==> (#[trigger] els[k]) is Some,
    ensures
        all_numbers(els) matches Some(v) && v.len() == els.len() && forall|k: int| 0 <= k < els.len() ==> Some(
            #[trigger] v[k],
        ) == els[k],
    decreases els.len(),
{
    if els.len() > 0 {
        let d = els.drop_last();
        assert forall|k: int| 0 <= k < d.len() implies (#[trigger] d[k]) is Some by {
            assert(d[k] == els[k]);
        }
        lemma_all_numbers(d);
        assert(els[els.len() - 1] is Some);
        let v = all_numbers(els)->0;
        let pv = all_numbers(d)->0;
        assert forall|k: int| 0 <= k < els.len() implies Some(#[trigger] v[k]) == els[k] by {
            if k < d.len() {
                assert(v[k] == pv[k]);
                assert(d[k] == els[k]);
            }
        }
    }
}

/// Member `i` holds a row's features: its key is one of `x`, `features`,
/// `data`, `values`, no member has a key earlier in that list, and it is
/// the first member with its key.
pub open spec fn feature_member(ms: Seq<MemberView>, i: int) -> bool {
    &&& 0 <= i < ms.len()
    &&& feature_rank(ms[i].key) < 4
    &&& forall|j: int| 0 <= j < ms.len() ==> feature_rank(#[trigger] ms[j].key) >= feature_rank(ms[i].key)
    &&& forall|j: int| 0 <= j < i ==> (#[trigger] ms[j]).key != ms[i].key
}

/// Member `i` holds a row's label: its key is one of `label`, `labels`,
/// `target`, `class`, `y`, no member has a key earlier in that list, and it
/// is the first member with its key.
pub open spec fn label_member(ms: Seq<MemberView>, i: int) -> bool {
    &&& 0 <= i < ms.len()
    &&& label_rank(ms[i].key) < 5
    &&& forall|j: int| 0 <= j < ms.len() ==> label_rank(#[trigger] ms[j].key) >= label_rank(ms[i].key)
    &&& forall|j: int| 0 <= j < i ==> (#[trigger] ms[j]).key != ms[i].key
}

proof fn lemma_feature_and_label_keys(ms: Seq<MemberView>)
    ensures
        forall|i: int| feature_member(ms, i) ==> first_member(ms, feature_keys()) == Some(ms[i]),
        (forall|j: int| 0 <= j < ms.len() ==> feature_rank(#[trigger] ms[j].key) == 4) ==> first_member(ms, feature_keys()) is None,
        forall|i: int| label_member(ms, i) ==> first_member(ms, label_keys()) == Some(ms[i]),
        (forall|j: int| 0 <= j < ms.len() ==> label_rank(#[trigger] ms[j].key) == 5) ==> first_member(ms, label_keys()) is None,
{
    let fr = |k: Seq<char>| feature_rank(k);
    let lr = |k: Seq<char>| label_rank(k);
    let fk = feature_keys();
    let lk = label_keys();
    reveal_strlit("x");
    reveal_strlit("features");
    reveal_strlit("data");
    reveal_strlit("values");
    reveal_strlit("label");
    reveal_strlit("labels");
    reveal_strlit("target");
    reveal_strlit("class");
    reveal_strlit("y");
    assert("features"@ != "x"@ && "data"@ != "x"@ && "data"@ != "features"@ && "values"@ != "x"@ && "values"@
        != "features"@ && "values"@ != "data"@) by {
        assert("features"@.len() != "x"@.len() && "data"@.len() != "x"@.len());
        assert("data"@[0] != "features"@[0] && "values"@[0] != "x"@[0] && "values"@[0] != "features"@[0]
            && "values"@[0] != "data"@[0]);
    }
    assert("labels"@ != "label"@ && "target"@ != "label"@ && "target"@ != "labels"@ && "class"@ != "label"@
        && "class"@ != "labels"@ && "class"@ != "target"@ && "y"@ != "label"@ && "y"@ != "labels"@ && "y"@
        != "target"@ && "y"@ != "class"@) by {
        assert("labels"@.len() != "label"@.len());
        assert("target"@[0] != "label"@[0] && "target"@[0] != "labels"@[0] && "class"@[0] != "label"@[0]
            && "class"@[0] != "labels"@[0] && "class"@[0] != "target"@[0]);
        assert("y"@.len() != "label"@.len() && "y"@.len() != "labels"@.len() && "y"@.len() != "target"@.len()
            && "y"@.len() != "class"@.len());
    }
    assert forall|r: int| 0 <= r < fk.len() implies fr(#[trigger] fk[r]) == r by {}
    assert forall|k: Seq<char>| 0 <= #[trigger] fr(k) < fk.len() implies fk[fr(k)] == k by {}
    assert forall|k: Seq<char>| #[trigger] fr(k) >= 0 by {}
    lemma_first_member_ranked(ms, fk, fr);
    assert forall|r: int| 0 <= r < lk.len() implies lr(#[trigger] lk[r]) == r by {}
    assert forall|k: Seq<char>| 0 <= #[trigger] lr(k) < lk.len() implies lk[lr(k)] == k by {}
    assert forall|k: Seq<char>| #[trigger] lr(k) >= 0 by {}
    lemma_first_member_ranked(ms, lk, lr);
    assert forall|i: int| feature_member(ms, i) implies first_member(ms, fk) == Some(ms[i]) by {
        assert forall|j: int| 0 <= j < ms.len() implies fr(#[trigger] ms[j].key) >= fr(ms[i].key) by {
            assert(feature_rank(ms[j].key) >= feature_rank(ms[i].key));
        }
        assert(chosen(ms, i, fr, 4));
    }
    assert forall|i: int| label_member(ms, i) implies first_member(ms, lk) == Some(ms[i]) by {
        assert forall|j: int| 0 <= j < ms.len() implies lr(#[trigger] ms[j].key) >= lr(ms[i].key) by {
            assert(label_rank(ms[j].key) >= label_rank(ms[i].key));
        }
        assert(chosen(ms, i, lr, 5));
    }
    if forall|j: int| 0 <= j < ms.len() ==> feature_rank(#[trigger] ms[j].key) == 4 {
        assert forall|j: int| 0 <= j < ms.len() implies fr(#[trigger] ms[j].key) >= fk.len() by {
            assert(feature_rank(ms[j].key) == 4);
        }
    }
    if forall|j: int| 0 <= j < ms.len() ==> label_rank(#[trigger] ms[j].key) == 5 {
        assert forall|j: int| 0 <= j < ms.len() implies lr(#[trigger] ms[j].key) >= lk.len() by {
            assert(label_rank(ms[j].key) == 5);
        }
    }
}

/// An object row whose feature member (see `feature_member`) holds an array
/// of numbers decodes to a row of exactly those numbers.
pub proof fn lemma_object_row_values(ms: Seq<MemberView>, i: int, e: Seq<Option<u64>>)
    requires
        feature_member(ms, i),
        ms[i].array == Some(e),
        forall|k: int| 0 <= k < e.len() ==> (#[trigger] e[k]) is Some,
    ensures
        row_of(JsonRowView::Object(ms)) is Ok,
        row_of(JsonRowView::Object(ms))->Ok_0.values.len() == e.len(),
        forall|k: int| 0 <= k < e.len() ==> Some(#[trigger] row_of(JsonRowView::Object(ms))->Ok_0.values[k]) == e[k],
{
    lemma_feature_and_label_keys(ms);
    lemma_all_numbers(e);
}

/// Such a row's label is the text of its label member (see
/// `label_member`), and there is none without one.
pub proof fn lemma_object_row_label(ms: Seq<MemberView>, i: int, e: Seq<Option<u64>>)
    requires
        feature_member(ms, i),
        ms[i].array == Some(e),
        forall|k: int| 0 <= k < e.len() ==> (#[trigger] e[k]) is Some,
    ensures
        forall|l: int| label_member(ms, l) ==> row_of(JsonRowView::Object(ms))->Ok_0.label == Some(ms[l].text),
        (forall|j: int| 0 <= j < ms.len() ==> label_rank(#[trigger] ms[j].key) == 5) ==> row_of(
            JsonRowView::Object(ms),
        )->Ok_0.label is None,
{
    lemma_feature_and_label_keys(ms);
    lemma_all_numbers(e);
}

/// An object with none of the feature keys is no row.
pub proof fn lemma_object_row_needs_features(ms: Seq<MemberView>)
    requires
        forall|j: int| 0 <= j < ms.len() ==> feature_rank(#[trigger] ms[j].key) == 4,
    ensures
        row_of(JsonRowView::Object(ms)) == Err::<RowTextView, Seq<char>>(
            "NDJSON row object needs an array field (x/features/data/values)"@,
        ),
{
    lemma_feature_and_label_keys(ms);
}

proof fn lemma_all_numbers_gap(els: Seq<Option<u64>>, k: int)
    requires
        0 <= k < els.len(),
        els[k] is None,
    ensures
        all_numbers(els) is None,
    decreases els.len(),
{
    if k < els.len() - 1 {
        let d = els.drop_last();
        assert(d[k] == els[k]);
        lemma_all_numbers_gap(d, k);
    }
}

/// A line holding a JSON array is a row of exactly its elements, with no
/// label, when every element is a number; otherwise it is refused for
/// holding something other than numbers.
pub proof fn lemma_array_row(els: Seq<Option<u64>>)
    ensures
        (forall|k: int| 0 <= k < els.len() ==> (#[trigger] els[k]) is Some) ==> {
            &&& row_of(JsonRowView::Array(els)) is Ok
            &&& row_of(JsonRowView::Array(els))->Ok_0.values.len() == els.len()
            &&& forall|k: int|
                0 <= k < els.len() ==> Some(#[trigger] row_of(JsonRowView::Array(els))->Ok_0.values[k]) == els[k]
            &&& row_of(JsonRowView::Array(els))->Ok_0.label is None
        },
        (exists|k: int| 0 <= k < els.len() && (#[trigger] els[k]) is None) ==> row_of(JsonRowView::Array(els))
            == Err::<RowTextView, Seq<char>>("NDJSON feature values must be numbers"@),
{
    if forall|k: int| 0 <= k < els.len() ==> (#[trigger] els[k]) is Some {
        lemma_all_numbers(els);
    } else {
        let k = choose|k: int| 0 <= k < els.len() && (#[trigger] els[k]) is None;
        lemma_all_numbers_gap(els, k);
    }
}

} // verus!
