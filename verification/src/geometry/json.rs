//! JSON geometry documents: an array of geometry objects, or an object
//! holding one under `geometries`, `objects`, `shapes` or `items`. Each
//! object is tolerant about field spellings: `shape`/`type` (default: a
//! point), `pos`/`position` or `x`/`y`/`z`, `size`/`radius`/`scale` (a
//! number or three), `rotation`/`rot` (degrees), `color`/`colour` (a colour
//! token or three numbers) and `label`/`name`. Numbers are carried as the
//! bit patterns of the `f64` values the JSON parser reads.

use vstd::prelude::*;
use serde_json::Value;
use crate::geometry::record::{color_text, color_view, parse_color_text, ColorText, ColorView};
use crate::geometry::{parse_shape, shape_of, GeometryError};
use crate::scene::GeometryType;
use crate::text::ascii_lower;

verus! {

/// A member of a geometry object, as the importer reads it.
pub struct JsonField {
    pub key: String,
    /// The value when it is a string.
    pub text: Option<String>,
    /// The value as an `f64` bit pattern when it is a number.
    pub number: Option<u64>,
    /// When the value is an array: each element as an `f64` bit pattern,
    /// `None` for an element that is not a number.
    pub elements: Option<Vec<Option<u64>>>,
}

/// A JSON document, as the importer reads it. An entry is `None` when it
/// is not a JSON object, else its members in the map's order.
pub enum JsonDocument {
    /// A top-level array of entries.
    Array(Vec<Option<Vec<JsonField>>>),
    /// A top-level object: each member's key and, when it is an array, its
    /// entries.
    Object(Vec<(String, Option<Vec<Option<Vec<JsonField>>>>)>),
    /// Any other JSON value.
    Other,
}

pub struct FieldView {
    pub key: Seq<char>,
    pub text: Option<Seq<char>>,
    pub number: Option<u64>,
    pub elements: Option<Seq<Option<u64>>>,
}

pub enum DocumentView {
    Array(Seq<Option<Seq<FieldView>>>),
    Object(Seq<(Seq<char>, Option<Seq<Option<Seq<FieldView>>>>)>),
    Other,
}

pub open spec fn field_view(f: JsonField) -> FieldView {
    FieldView {
        key: f.key@,
        text: match f.text {
            Some(s) => Some(s@),
            None => None,
        },
        number: f.number,
        elements: match f.elements {
            Some(v) => Some(v@),
            None => None,
        },
    }
}

pub open spec fn entry_view(e: Option<Vec<JsonField>>) -> Option<Seq<FieldView>> {
    match e {
        Some(fs) => Some(fs@.map_values(|f: JsonField| field_view(f))),
        None => None,
    }
}

pub open spec fn entries_view(es: Seq<Option<Vec<JsonField>>>) -> Seq<Option<Seq<FieldView>>> {
    es.map_values(|e: Option<Vec<JsonField>>| entry_view(e))
}

pub open spec fn document_view(d: JsonDocument) -> DocumentView {
    match d {
        JsonDocument::Array(es) => DocumentView::Array(entries_view(es@)),
        JsonDocument::Object(ms) => DocumentView::Object(
            ms@.map_values(
                |m: (String, Option<Vec<Option<Vec<JsonField>>>>)|
                    (
                        m.0@,
                        match m.1 {
                            Some(es) => Some(entries_view(es@)),
                            None => None,
                        },
                    ),
            ),
        ),
        JsonDocument::Other => DocumentView::Other,
    }
}

/// What `serde_json` reads a geometry document as, or its error message.
pub uninterp spec fn json_document(text: Seq<char>) -> Result<DocumentView, Seq<char>>;

/// `serde_json::Value`, carried through unread.
#[verifier::external_type_specification]
#[verifier::external_body]
pub struct ExJsonValue(Value);

/// One entry of a document, through `Value::as_object`, with each member's
/// value through `Value::as_str`, `Value::as_f64` (as a bit pattern) and
/// `Value::as_array`. It claims nothing: what an entry reads as is stated by
/// `read_json_document`, which hands each entry here.
#[verifier::external_body]
fn read_json_entry(e: &Value) -> Option<Vec<JsonField>> {
    let bits = |v: &Value| v.as_f64().map(|n| n.to_bits());
    e.as_object().map(|o| o.iter().map(|(k, v)| JsonField {
        key: k.clone(),
        text: v.as_str().map(String::from),
        number: bits(v),
        elements: v.as_array().map(|a| a.iter().map(bits).collect()),
    }).collect())
}

/// `serde_json::from_str::<Value>` of a document, read down to the members
/// of its entries: strings through `Value::as_str`, numbers through
/// `Value::as_f64` (as bit patterns), arrays through `Value::as_array`.
#[verifier::external_body]
fn read_json_document(text: &str) -> (r: Result<JsonDocument, String>)
    ensures
        match r {
            Ok(d) => json_document(text@) == Ok::<DocumentView, Seq<char>>(document_view(d)),
            Err(m) => json_document(text@) == Err::<DocumentView, Seq<char>>(m@),
        },
{
    let doc: Value = serde_json::from_str(text).map_err(|e| e.to_string())?;
    let entries = |a: &Vec<Value>| a.iter().map(read_json_entry).collect();
    Ok(match doc {
        Value::Array(a) => JsonDocument::Array(entries(&a)),
        Value::Object(m) => JsonDocument::Object(m.iter().map(|(k, v)| (k.clone(), v.as_array().map(entries))).collect()),
        _ => JsonDocument::Other,
    })
}

/// A colour given in JSON: a colour token, or three numbers (0–1 or 0–255).
#[derive(Debug, Clone, PartialEq)]
pub enum JsonColor {
    Token(ColorText),
    Rgb(Vec<u64>),
}

/// One geometry read from JSON; numbers are `f64` bit patterns. An empty
/// `rotation` means no rotation; an empty `scale` the default (point size
/// for points, else 1), one entry a uniform scale, three a per-axis scale;
/// a missing colour the default colour.
#[derive(Debug, Clone, PartialEq)]
pub struct JsonRecord {
    pub shape: GeometryType,
    pub is_point: bool,
    pub position: Vec<u64>,
    pub rotation: Vec<u64>,
    pub scale: Vec<u64>,
    pub color: Option<JsonColor>,
    pub label: Option<String>,
}

pub enum JsonColorView {
    Token(ColorView),
    Rgb(Seq<u64>),
}

pub struct JsonRecordView {
    pub shape: GeometryType,
    pub is_point: bool,
    pub position: Seq<u64>,
    pub rotation: Seq<u64>,
    pub scale: Seq<u64>,
    pub color: Option<JsonColorView>,
    pub label: Option<Seq<char>>,
}

pub open spec fn json_color_view(c: JsonColor) -> JsonColorView {
    match c {
        JsonColor::Token(t) => JsonColorView::Token(color_view(t)),
        JsonColor::Rgb(v) => JsonColorView::Rgb(v@),
    }
}

pub open spec fn json_record_view(r: JsonRecord) -> JsonRecordView {
    JsonRecordView {
        shape: r.shape,
        is_point: r.is_point,
        position: r.position@,
        rotation: r.rotation@,
        scale: r.scale@,
        color: match r.color {
            Some(c) => Some(json_color_view(c)),
            None => None,
        },
        label: match r.label {
            Some(s) => Some(s@),
            None => None,
        },
    }
}

/// The member with key `key`.
pub open spec fn field_named(fs: Seq<FieldView>, key: Seq<char>) -> Option<FieldView>
    decreases fs.len(),
{
    if fs.len() == 0 {
        None
    } else if fs[0].key == key {
        Some(fs[0])
    } else {
        field_named(fs.drop_first(), key)
    }
}

/// The member under the first of `keys` that the object has.
pub open spec fn first_field(fs: Seq<FieldView>, keys: Seq<Seq<char>>) -> Option<FieldView>
    decreases keys.len(),
{
    if keys.len() == 0 {
        None
    } else {
        match field_named(fs, keys[0]) {
            Some(f) => Some(f),
            None => first_field(fs, keys.drop_first()),
        }
    }
}

/// Three numbers, when the value is an array of exactly three numbers.
pub open spec fn triple_of(f: FieldView) -> Option<Seq<u64>> {
    match f.elements {
        Some(e) => if e.len() == 3 && e[0] is Some && e[1] is Some && e[2] is Some {
            Some(seq![e[0]->Some_0, e[1]->Some_0, e[2]->Some_0])
        } else {
            None
        },
        None => None,
    }
}

/// The geometry one entry describes, or the message for a bad entry.
pub open spec fn entry_record(entry: Option<Seq<FieldView>>) -> Result<JsonRecordView, Seq<char>> {
    match entry {
        None => Err("geometry entry is not an object"@),
        Some(fs) => {
            let shape_text = match first_field(fs, seq!["shape"@, "type"@]) {
                Some(f) => f.text,
                None => None,
            };
            let shape = match shape_text {
                Some(s) => match shape_of(ascii_lower(s)) {
                    Some(x) => Ok(x),
                    None => Err("unknown shape '"@ + s + "'"@),
                },
                None => Ok((GeometryType::Sphere, true)),
            };
            let coord = |k: Seq<char>| match field_named(fs, k) {
                Some(f) => f.number,
                None => None,
            };
            let position = match first_field(fs, seq!["pos"@, "position"@]) {
                Some(f) => match triple_of(f) {
                    Some(t) => Ok(t),
                    None => Err("'pos' must be an array of 3 numbers"@),
                },
                None => if coord("x"@) is Some && coord("y"@) is Some && coord("z"@) is Some {
                    Ok(seq![coord("x"@)->Some_0, coord("y"@)->Some_0, coord("z"@)->Some_0])
                } else {
                    Err("missing position ('pos' array or x/y/z fields)"@)
                },
            };
            let scale = match first_field(fs, seq!["size"@, "radius"@, "scale"@]) {
                Some(f) => match f.number {
                    Some(b) => Ok(seq![b]),
                    None => match triple_of(f) {
                        Some(t) => Ok(t),
                        None => Err("'scale' must be a number or [sx, sy, sz]"@),
                    },
                },
                None => Ok(Seq::empty()),
            };
            let rotation = match first_field(fs, seq!["rotation"@, "rot"@]) {
                Some(f) => match triple_of(f) {
                    Some(t) => Ok(t),
                    None => Err("'rotation' must be [rx, ry, rz] degrees"@),
                },
                None => Ok(Seq::empty()),
            };
            let color = match first_field(fs, seq!["color"@, "colour"@]) {
                Some(f) => match f.text {
                    Some(s) => match color_text(s) {
                        Some(c) => Ok(Some(JsonColorView::Token(c))),
                        None => Err("bad color '"@ + s + "'"@),
                    },
                    None => match triple_of(f) {
                        Some(t) => Ok(Some(JsonColorView::Rgb(t))),
                        None => Err("'color' must be \"#hex\" or [r, g, b]"@),
                    },
                },
                None => Ok(None),
            };
            let label = match first_field(fs, seq!["label"@, "name"@]) {
                Some(f) => f.text,
                None => None,
            };
            match (shape, position, scale, rotation, color) {
                (Err(m), _, _, _, _) => Err(m),
                (_, Err(m), _, _, _) => Err(m),
                (_, _, Err(m), _, _) => Err(m),
                (_, _, _, Err(m), _) => Err(m),
                (_, _, _, _, Err(m)) => Err(m),
                (Ok((shape, is_point)), Ok(position), Ok(scale), Ok(rotation), Ok(color)) => Ok(
                    JsonRecordView { shape, is_point, position, rotation, scale, color, label },
                ),
            }
        },
    }
}

/// The member under `a`, or failing that the one under `b`.
pub open spec fn member_either(fs: Seq<FieldView>, a: Seq<char>, b: Seq<char>) -> Option<FieldView> {
    match field_named(fs, a) {
        Some(f) => Some(f),
        None => field_named(fs, b),
    }
}

/// A geometry object that is read takes its shape from the text under
/// `shape` (else `type`; a point when there is none), its position from the
/// three numbers under `pos` (else `position`, else the numbers under `x`,
/// `y` and `z`), and its label from the text under `label` (else `name`).
pub proof fn lemma_entry_members(fs: Seq<FieldView>)
    ensures
        entry_record(Some(fs)) matches Ok(r) ==> {
            &&& r.label == match member_either(fs, "label"@, "name"@) {
                Some(f) => f.text,
                None => None,
            }
            &&& match member_either(fs, "shape"@, "type"@) {
                Some(f) if f.text is Some => shape_of(ascii_lower(f.text->Some_0)) == Some((r.shape, r.is_point)),
                _ => r.shape == GeometryType::Sphere && r.is_point,
            }
            &&& match member_either(fs, "pos"@, "position"@) {
                Some(f) => triple_of(f) == Some(r.position),
                None => r.position == seq![
                    field_named(fs, "x"@)->Some_0.number->Some_0,
                    field_named(fs, "y"@)->Some_0.number->Some_0,
                    field_named(fs, "z"@)->Some_0.number->Some_0,
                ],
            }
        },
{
    reveal_with_fuel(first_field, 3);
}

/// The records of the entries, or the 1-based number and message of the
/// first bad entry.
pub open spec fn entries_records(es: Seq<Option<Seq<FieldView>>>) -> Result<Seq<JsonRecordView>, (nat, Seq<char>)>
    decreases es.len(),
{
    if es.len() == 0 {
        Ok(Seq::empty())
    } else {
        match entries_records(es.drop_last()) {
            Err(e) => Err(e),
            Ok(prev) => match entry_record(es.last()) {
                Err(m) => Err((es.len(), m)),
                Ok(r) => Ok(prev.push(r)),
            },
        }
    }
}

/// The first member under one of `keys`, in that order, holding an array.
pub open spec fn wrapped_entries(
    ms: Seq<(Seq<char>, Option<Seq<Option<Seq<FieldView>>>>)>,
    keys: Seq<Seq<char>>,
) -> Option<Seq<Option<Seq<FieldView>>>>
    decreases keys.len(),
{
    if keys.len() == 0 {
        None
    } else {
        match member_array(ms, keys[0]) {
            Some(es) => Some(es),
            None => wrapped_entries(ms, keys.drop_first()),
        }
    }
}

/// The entries of the member `key`, when it is an array.
pub open spec fn member_array(
    ms: Seq<(Seq<char>, Option<Seq<Option<Seq<FieldView>>>>)>,
    key: Seq<char>,
) -> Option<Seq<Option<Seq<FieldView>>>>
    decreases ms.len(),
{
    if ms.len() == 0 {
        None
    } else if ms[0].0 == key {
        ms[0].1
    } else {
        member_array(ms.drop_first(), key)
    }
}

/// How a geometry document fails.
pub enum JsonErrorView {
    /// The document as a whole, with its message.
    Format(Seq<char>),
    /// An entry, by its 1-based number, with its message.
    Entry(nat, Seq<char>),
}

/// The records a document describes.
pub open spec fn document_records(d: DocumentView) -> Result<Seq<JsonRecordView>, JsonErrorView> {
    let entries = match d {
        DocumentView::Array(es) => Ok(es),
        DocumentView::Object(ms) => match wrapped_entries(ms, seq!["geometries"@, "objects"@, "shapes"@, "items"@]) {
            Some(es) => Ok(es),
            None => Err("expected a JSON array or an object with a 'geometries' array"@),
        },
        DocumentView::Other => Err("expected a JSON array of geometry objects"@),
    };
    match entries {
        Err(m) => Err(JsonErrorView::Format(m)),
        Ok(es) => match entries_records(es) {
            Ok(rs) => Ok(rs),
            Err((n, m)) => Err(JsonErrorView::Entry(n, m)),
        },
    }
}

/// An object document reads as the array it wraps: the array under
/// `geometries`, else under `objects`, else `shapes`, else `items`; with
/// none of these it is refused.
pub proof fn lemma_wrapped_document(ms: Seq<(Seq<char>, Option<Seq<Option<Seq<FieldView>>>>)>)
    ensures
        ({
            let d = DocumentView::Object(ms);
            let g = member_array(ms, "geometries"@);
            let o = member_array(ms, "objects"@);
            let s = member_array(ms, "shapes"@);
            let i = member_array(ms, "items"@);
            &&& g is Some ==> document_records(d) == document_records(DocumentView::Array(g->Some_0))
            &&& g is None && o is Some ==> document_records(d) == document_records(DocumentView::Array(o->Some_0))
            &&& g is None && o is None && s is Some ==> document_records(d) == document_records(
                DocumentView::Array(s->Some_0),
            )
            &&& g is None && o is None && s is None && i is Some ==> document_records(d) == document_records(
                DocumentView::Array(i->Some_0),
            )
            &&& g is None && o is None && s is None && i is None ==> document_records(d) == Err::<
                Seq<JsonRecordView>,
                JsonErrorView,
            >(JsonErrorView::Format("expected a JSON array or an object with a 'geometries' array"@))
        }),
{
    reveal_with_fuel(wrapped_entries, 5);
    let keys = seq!["geometries"@, "objects"@, "shapes"@, "items"@];
    assert(keys.drop_first() =~= seq!["objects"@, "shapes"@, "items"@]);
    assert(keys.drop_first().drop_first() =~= seq!["shapes"@, "items"@]);
    assert(keys.drop_first().drop_first().drop_first() =~= seq!["items"@]);
    assert(keys.drop_first().drop_first().drop_first().drop_first() =~= Seq::<Seq<char>>::empty());
}

/// Plain-value form of an import result.
pub open spec fn result_view(r: Result<Vec<JsonRecord>, GeometryError>) -> Result<Seq<JsonRecordView>, JsonErrorView> {
    match r {
        Ok(v) => Ok(v@.map_values(|x: JsonRecord| json_record_view(x))),
        Err(GeometryError::Parse { line, message }) => Err(JsonErrorView::Entry(line as nat, message@)),
        Err(GeometryError::Format(m)) => Err(JsonErrorView::Format(m@)),
        Err(GeometryError::Io(m)) => Err(JsonErrorView::Format("I/O error: "@ + m@)),
        Err(GeometryError::Unsupported(m)) => Err(JsonErrorView::Format("unsupported: "@ + m@)),
    }
}

fn field_index(fs: &Vec<JsonField>, key: &str) -> (r: Option<usize>)
    ensures
        ({
            let v = fs@.map_values(|f: JsonField| field_view(f));
            match field_named(v, key@) {
                Some(f) => r matches Some(i) && i < fs@.len() && v[i as int] == f,
                None => r is None,
            }
        }),
{
    let ghost v = fs@.map_values(|f: JsonField| field_view(f));
    let mut i: usize = 0;
    proof {
        assert(v.skip(0) =~= v);
    }
    while i < fs.len()
        invariant
            i <= fs@.len(),
            v == fs@.map_values(|f: JsonField| field_view(f)),
            field_named(v, key@) == field_named(v.skip(i as int), key@),
        decreases fs@.len() - i,
    {
        proof {
            assert(v.skip(i as int)[0] == v[i as int]);
            assert(v.skip(i as int).drop_first() =~= v.skip(i + 1));
        }
        if crate::text::str_eq(fs[i].key.as_str(), key) {
            return Some(i);
        }
        i = i + 1;
    }
    proof {
        assert(v.skip(i as int).len() == 0);
    }
    None
}

/// The index of the member under the first of `a`, `b` (and `c`, `d` when
/// given) that the object has.
fn first_index(fs: &Vec<JsonField>, keys: &Vec<&str>) -> (r: Option<usize>)
    ensures
        ({
            let v = fs@.map_values(|f: JsonField| field_view(f));
            match first_field(v, keys@.map_values(|k: &str| k@)) {
                Some(f) => r matches Some(i) && i < fs@.len() && v[i as int] == f,
                None => r is None,
            }
        }),
{
    let ghost kv = keys@.map_values(|k: &str| k@);
    let ghost v = fs@.map_values(|f: JsonField| field_view(f));
    let mut j: usize = 0;
    proof {
        assert(kv.skip(0) =~= kv);
    }
    while j < keys.len()
        invariant
            j <= keys@.len(),
            kv == keys@.map_values(|k: &str| k@),
            v == fs@.map_values(|f: JsonField| field_view(f)),
            first_field(v, kv) == first_field(v, kv.skip(j as int)),
        decreases keys@.len() - j,
    {
        proof {
            assert(kv.skip(j as int)[0] == keys@[j as int]@);
            assert(kv.skip(j as int).drop_first() =~= kv.skip(j + 1));
        }
        match field_index(fs, keys[j]) {
            Some(i) => {
                return Some(i);
            },
            None => {},
        }
        j = j + 1;
    }
    proof {
        assert(kv.skip(j as int).len() == 0);
    }
    None
}

fn triple(f: &JsonField) -> (r: Option<Vec<u64>>)
    ensures
        match triple_of(field_view(*f)) {
            Some(t) => r matches Some(v) && v@ == t,
            None => r is None,
        },
{
    match &f.elements {
        Some(e) => {
            if e.len() == 3 {
                match (e[0], e[1], e[2]) {
                    (Some(a), Some(b), Some(c)) => {
                        let v = vec![a, b, c];
                        proof {
                            assert(v@ =~= seq![a, b, c]);
                        }
                        Some(v)
                    },
                    _ => None,
                }
            } else {
                None
            }
        },
        None => None,
    }
}

fn quoted_error(prefix: &str, body: &String) -> (r: String)
    ensures
        r@ == prefix@ + body@ + "'"@,
{
    let mut m = String::from_str(prefix);
    m.append(body.as_str());
    m.append("'");
    m
}

/// The geometry one entry describes, or the message for a bad entry.
pub fn record_of_entry(entry: &Option<Vec<JsonField>>) -> (r: Result<JsonRecord, String>)
    ensures
        match entry_record(entry_view(*entry)) {
            Ok(v) => r matches Ok(x) && json_record_view(x) == v,
            Err(m) => r matches Err(e) && e@ == m,
        },
{
    let fs = match entry {
        None => {
            return Err(String::from_str("geometry entry is not an object"));
        },
        Some(fs) => fs,
    };
    let ghost v = fs@.map_values(|f: JsonField| field_view(f));
    let keys1 = vec!["shape", "type"];
    proof {
        assert(keys1@.map_values(|k: &str| k@) =~= seq!["shape"@, "type"@]);
    }
    let (shape, is_point) = match first_index(fs, &keys1) {
        Some(i) => match &fs[i].text {
            Some(s) => match parse_shape(s.as_str()) {
                Some(x) => x,
                None => {
                    return Err(quoted_error("unknown shape '", s));
                },
            },
            None => (GeometryType::Sphere, true),
        },
        None => (GeometryType::Sphere, true),
    };
    let keys2 = vec!["pos", "position"];
    proof {
        assert(keys2@.map_values(|k: &str| k@) =~= seq!["pos"@, "position"@]);
    }
    let position = match first_index(fs, &keys2) {
        Some(i) => match triple(&fs[i]) {
            Some(t) => t,
            None => {
                return Err(String::from_str("'pos' must be an array of 3 numbers"));
            },
        },
        None => {
            let x = match field_index(fs, "x") {
                Some(i) => fs[i].number,
                None => None,
            };
            let y = match field_index(fs, "y") {
                Some(i) => fs[i].number,
                None => None,
            };
            let z = match field_index(fs, "z") {
                Some(i) => fs[i].number,
                None => None,
            };
            match (x, y, z) {
                (Some(a), Some(b), Some(c)) => {
                    let t = vec![a, b, c];
                    proof {
                        assert(t@ =~= seq![a, b, c]);
                    }
                    t
                },
                _ => {
                    return Err(String::from_str("missing position ('pos' array or x/y/z fields)"));
                },
            }
        },
    };
    let keys3 = vec!["size", "radius", "scale"];
    proof {
        assert(keys3@.map_values(|k: &str| k@) =~= seq!["size"@, "radius"@, "scale"@]);
    }
    let scale = match first_index(fs, &keys3) {
        Some(i) => match fs[i].number {
            Some(b) => {
                let t = vec![b];
                proof {
                    assert(t@ =~= seq![b]);
                }
                t
            },
            None => match triple(&fs[i]) {
                Some(t) => t,
                None => {
                    return Err(String::from_str("'scale' must be a number or [sx, sy, sz]"));
                },
            },
        },
        None => Vec::new(),
    };
    let keys4 = vec!["rotation", "rot"];
    proof {
        assert(keys4@.map_values(|k: &str| k@) =~= seq!["rotation"@, "rot"@]);
    }
    let rotation = match first_index(fs, &keys4) {
        Some(i) => match triple(&fs[i]) {
            Some(t) => t,
            None => {
                return Err(String::from_str("'rotation' must be [rx, ry, rz] degrees"));
            },
        },
        None => Vec::new(),
    };
    let keys5 = vec!["color", "colour"];
    proof {
        assert(keys5@.map_values(|k: &str| k@) =~= seq!["color"@, "colour"@]);
    }
    let color = match first_index(fs, &keys5) {
        Some(i) => match &fs[i].text {
            Some(s) => match parse_color_text(s.as_str()) {
                Some(c) => Some(JsonColor::Token(c)),
                None => {
                    return Err(quoted_error("bad color '", s));
                },
            },
            None => match triple(&fs[i]) {
                Some(t) => Some(JsonColor::Rgb(t)),
                None => {
                    return Err(String::from_str("'color' must be \"#hex\" or [r, g, b]"));
                },
            },
        },
        None => None,
    };
    let keys6 = vec!["label", "name"];
    proof {
        assert(keys6@.map_values(|k: &str| k@) =~= seq!["label"@, "name"@]);
    }
    let label = match first_index(fs, &keys6) {
        Some(i) => match &fs[i].text {
            Some(s) => Some(s.clone()),
            None => None,
        },
        None => None,
    };
    let r = JsonRecord { shape, is_point, position, rotation, scale, color, label };
    proof {
        assert(json_record_view(r).position == r.position@);
    }
    Ok(r)
}

proof fn lemma_entries_error_persists(es: Seq<Option<Seq<FieldView>>>, n: int)
    requires
        0 < n <= es.len(),
        entries_records(es.take(n)) is Err,
    ensures
        entries_records(es) == entries_records(es.take(n)),
    decreases es.len() - n,
{
    if n < es.len() {
        assert(es.take(n + 1).drop_last() =~= es.take(n));
        lemma_entries_error_persists(es, n + 1);
    } else {
        assert(es.take(n) =~= es);
    }
}

fn records_of_entries(es: &Vec<Option<Vec<JsonField>>>) -> (r: Result<Vec<JsonRecord>, GeometryError>)
    ensures
        result_view(r) == match entries_records(entries_view(es@)) {
            Ok(rs) => Ok::<Seq<JsonRecordView>, JsonErrorView>(rs),
            Err((n, m)) => Err(JsonErrorView::Entry(n, m)),
        },
{
    let ghost ev = entries_view(es@);
    let mut out: Vec<JsonRecord> = Vec::new();
    let mut i: usize = 0;
    proof {
        assert(ev.take(0) =~= Seq::<Option<Seq<FieldView>>>::empty());
        assert(out@.map_values(|x: JsonRecord| json_record_view(x)) =~= Seq::<JsonRecordView>::empty());
    }
    while i < es.len()
        invariant
            i <= es@.len(),
            ev == entries_view(es@),
            entries_records(ev.take(i as int)) == Ok::<Seq<JsonRecordView>, (nat, Seq<char>)>(
                out@.map_values(|x: JsonRecord| json_record_view(x)),
            ),
        decreases es@.len() - i,
    {
        proof {
            assert(ev.take(i + 1).drop_last() =~= ev.take(i as int));
            assert(ev.take(i + 1).last() == entry_view(es@[i as int]));
        }
        match record_of_entry(&es[i]) {
            Ok(x) => {
                let ghost before = out@;
                out.push(x);
                proof {
                    assert(out@.map_values(|x: JsonRecord| json_record_view(x)) =~= before.map_values(
                        |x: JsonRecord| json_record_view(x),
                    ).push(json_record_view(x)));
                }
            },
            Err(message) => {
                proof {
                    lemma_entries_error_persists(ev, i + 1);
                }
                return Err(GeometryError::Parse { line: i + 1, message });
            },
        }
        i = i + 1;
    }
    proof {
        assert(ev.take(i as int) =~= ev);
    }
    Ok(out)
}

fn member_entries(ms: &Vec<(String, Option<Vec<Option<Vec<JsonField>>>>)>, key: &str) -> (r: Option<usize>)
    ensures
        ({
            let mv = ms@.map_values(
                |m: (String, Option<Vec<Option<Vec<JsonField>>>>)|
                    (
                        m.0@,
                        match m.1 {
                            Some(es) => Some(entries_view(es@)),
                            None => None,
                        },
                    ),
            );
            match member_array(mv, key@) {
                Some(es) => r matches Some(i) && i < ms@.len() && (ms@[i as int].1 matches Some(v) && entries_view(v@)
                    == es),
                None => r is None,
            }
        }),
{
    let ghost mv = ms@.map_values(
        |m: (String, Option<Vec<Option<Vec<JsonField>>>>)|
            (
                m.0@,
                match m.1 {
                    Some(es) => Some(entries_view(es@)),
                    None => None,
                },
            ),
    );
    let mut i: usize = 0;
    proof {
        assert(mv.skip(0) =~= mv);
    }
    while i < ms.len()
        invariant
            i <= ms@.len(),
            mv == ms@.map_values(
                |m: (String, Option<Vec<Option<Vec<JsonField>>>>)|
                    (
                        m.0@,
                        match m.1 {
                            Some(es) => Some(entries_view(es@)),
                            None => None,
                        },
                    ),
            ),
            member_array(mv, key@) == member_array(mv.skip(i as int), key@),
        decreases ms@.len() - i,
    {
        proof {
            assert(mv.skip(i as int)[0] == mv[i as int]);
            assert(mv.skip(i as int).drop_first() =~= mv.skip(i + 1));
        }
        if crate::text::str_eq(ms[i].0.as_str(), key) {
            return match &ms[i].1 {
                Some(_) => Some(i),
                None => None,
            };
        }
        i = i + 1;
    }
    proof {
        assert(mv.skip(i as int).len() == 0);
    }
    None
}

/// The records a document describes.
pub fn records_of_document(doc: &JsonDocument) -> (r: Result<Vec<JsonRecord>, GeometryError>)
    ensures
        result_view(r) == document_records(document_view(*doc)),
{
    match doc {
        JsonDocument::Array(es) => records_of_entries(es),
        JsonDocument::Object(ms) => {
            let keys = vec!["geometries", "objects", "shapes", "items"];
            let ghost kv = keys@.map_values(|k: &str| k@);
            let ghost mv = match document_view(*doc) {
                DocumentView::Object(x) => x,
                _ => Seq::empty(),
            };
            proof {
                assert(kv =~= seq!["geometries"@, "objects"@, "shapes"@, "items"@]);
                assert(kv.skip(0) =~= kv);
            }
            let mut j: usize = 0;
            while j < keys.len()
                invariant
                    j <= keys@.len(),
                    kv == keys@.map_values(|k: &str| k@),
                    kv == seq!["geometries"@, "objects"@, "shapes"@, "items"@],
                    *doc == JsonDocument::Object(*ms),
                    mv == ms@.map_values(
                        |m: (String, Option<Vec<Option<Vec<JsonField>>>>)|
                            (
                                m.0@,
                                match m.1 {
                                    Some(es) => Some(entries_view(es@)),
                                    None => None,
                                },
                            ),
                    ),
                    wrapped_entries(mv, kv) == wrapped_entries(mv, kv.skip(j as int)),
                decreases keys@.len() - j,
            {
                proof {
                    assert(kv.skip(j as int)[0] == keys@[j as int]@);
                    assert(kv.skip(j as int).drop_first() =~= kv.skip(j + 1));
                }
                match member_entries(ms, keys[j]) {
                    Some(i) => {
                        match &ms[i].1 {
                            Some(es) => {
                                return records_of_entries(es);
                            },
                            None => {},
                        }
                    },
                    None => {},
                }
                j = j + 1;
            }
            proof {
                assert(kv.skip(j as int).len() == 0);
            }
            Err(GeometryError::Format(String::from_str("expected a JSON array or an object with a 'geometries' array")))
        },
        JsonDocument::Other => Err(GeometryError::Format(String::from_str("expected a JSON array of geometry objects"))),
    }
}

/// Read a JSON geometry document: its records, a format error for text
/// that is not JSON or not a geometry document, or the number and message
/// of the first bad entry.
pub fn json_records(text: &str) -> (r: Result<Vec<JsonRecord>, GeometryError>)
    ensures
        match json_document(text@) {
            Err(e) => r matches Err(GeometryError::Format(m)) && m@ == "invalid JSON: "@ + e,
            Ok(d) => result_view(r) == document_records(d),
        },
{
    match read_json_document(text) {
        Err(e) => {
            let mut m = String::from_str("invalid JSON: ");
            m.append(e.as_str());
            Err(GeometryError::Format(m))
        },
        Ok(d) => records_of_document(&d),
    }
}

} // verus!
