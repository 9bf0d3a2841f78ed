//! Geometry import: shape names, colors, plain-text geometry records and
//! header-mapped geometry tables.

pub mod dsl;
pub mod json;
pub mod parser;
pub mod record;
pub mod source;
pub mod table;
pub mod xyz;

use vstd::prelude::*;
use crate::scene::GeometryType;
use crate::text::{ascii_lower, chars_eq_str, chars_of, lower_chars_of, push_decimal, dec_str, trim_range, trimmed};

verus! {

/// Errors produced by the geometry import layer. I/O failures carry the
/// rendered message of the operating-system error.
#[derive(Debug, Clone)]
pub enum GeometryError {
    Io(String),
    /// Parse failure with a 1-based line/record number.
    Parse { line: usize, message: String },
    Format(String),
    Unsupported(String),
}

/// The rendered text of a geometry error.
pub open spec fn geometry_error_text(e: GeometryError) -> Seq<char> {
    match e {
        GeometryError::Io(m) => "I/O error: "@ + m@,
        GeometryError::Parse { line, message } => "line "@ + dec_str(line as nat) + ": "@ + message@,
        GeometryError::Format(m) => "format error: "@ + m@,
        GeometryError::Unsupported(m) => "unsupported: "@ + m@,
    }
}

impl GeometryError {
    /// Human-readable rendering of the error.
    pub fn message(&self) -> (r: String)
        ensures
            r@ == geometry_error_text(*self),
    {
        match self {
            GeometryError::Io(m) => {
                let mut s = String::from_str("I/O error: ");
                s.append(m.as_str());
                s
            },
            GeometryError::Parse { line, message } => {
                let mut s = String::from_str("line ");
                push_decimal(&mut s, *line as u64);
                s.append(": ");
                s.append(message.as_str());
                s
            },
            GeometryError::Format(m) => {
                let mut s = String::from_str("format error: ");
                s.append(m.as_str());
                s
            },
            GeometryError::Unsupported(m) => {
                let mut s = String::from_str("unsupported: ");
                s.append(m.as_str());
                s
            },
        }
    }
}

/// The shape a name stands for (ASCII-case-insensitive, with aliases), and
/// whether it is a point (a small sphere).
pub open spec fn shape_of(lower: Seq<char>) -> Option<(GeometryType, bool)> {
    if lower == "cube"@ || lower == "box"@ {
        Some((GeometryType::Cube, false))
    } else if lower == "sphere"@ || lower == "ball"@ {
        Some((GeometryType::Sphere, false))
    } else if lower == "plane"@ || lower == "quad"@ {
        Some((GeometryType::Plane, false))
    } else if lower == "point"@ || lower == "dot"@ || lower == "vertex"@ {
        Some((GeometryType::Sphere, true))
    } else {
        None
    }
}

/// Parse a shape name (with common aliases).
pub fn parse_shape(token: &str) -> (r: Option<(GeometryType, bool)>)
    ensures
        r == shape_of(ascii_lower(token@)),
{
    let t = lower_chars_of(token);
    if chars_eq_str(&t, "cube") || chars_eq_str(&t, "box") {
        Some((GeometryType::Cube, false))
    } else if chars_eq_str(&t, "sphere") || chars_eq_str(&t, "ball") {
        Some((GeometryType::Sphere, false))
    } else if chars_eq_str(&t, "plane") || chars_eq_str(&t, "quad") {
        Some((GeometryType::Plane, false))
    } else if chars_eq_str(&t, "point") || chars_eq_str(&t, "dot") || chars_eq_str(&t, "vertex") {
        Some((GeometryType::Sphere, true))
    } else {
        None
    }
}

/// A shape name is read ignoring ASCII case: `cube` and `box` name a cube,
/// `sphere` and `ball` a sphere, `plane` and `quad` a plane, and `point`,
/// `dot` and `vertex` a point (a small sphere); no other name is a shape.
pub proof fn lemma_shape_names(name: Seq<char>)
    ensures
        (shape_of(ascii_lower(name)) == Some((GeometryType::Cube, false))) == (ascii_lower(name) == "cube"@
            || ascii_lower(name) == "box"@),
        (shape_of(ascii_lower(name)) == Some((GeometryType::Sphere, false))) == (ascii_lower(name) == "sphere"@
            || ascii_lower(name) == "ball"@),
        (shape_of(ascii_lower(name)) == Some((GeometryType::Plane, false))) == (ascii_lower(name) == "plane"@
            || ascii_lower(name) == "quad"@),
        (shape_of(ascii_lower(name)) == Some((GeometryType::Sphere, true))) == (ascii_lower(name) == "point"@
            || ascii_lower(name) == "dot"@ || ascii_lower(name) == "vertex"@),
        shape_of(ascii_lower(name)) is Some ==> shape_of(ascii_lower(name)) == Some((GeometryType::Cube, false))
            || shape_of(ascii_lower(name)) == Some((GeometryType::Sphere, false)) || shape_of(ascii_lower(name))
            == Some((GeometryType::Plane, false)) || shape_of(ascii_lower(name)) == Some((GeometryType::Sphere, true)),
{
    reveal_strlit("cube");
    reveal_strlit("box");
    reveal_strlit("sphere");
    reveal_strlit("ball");
    reveal_strlit("plane");
    reveal_strlit("quad");
    reveal_strlit("point");
    reveal_strlit("dot");
    reveal_strlit("vertex");
    let l = ascii_lower(name);
    if l == "box"@ {
        assert(l.len() != "cube"@.len());
    } else if l == "sphere"@ {
        assert(l[0] != "cube"@[0] && l[0] != "box"@[0]);
    } else if l == "ball"@ {
        assert(l[0] != "cube"@[0] && l[1] != "box"@[1]);
    } else if l == "plane"@ || l == "quad"@ {
        assert(l[0] != "cube"@[0] && l[0] != "box"@[0] && l[0] != "sphere"@[0] && l[0] != "ball"@[0]);
    } else if l == "point"@ || l == "dot"@ || l == "vertex"@ {
        assert(l[0] != "cube"@[0] && l[0] != "box"@[0] && l[0] != "sphere"@[0] && l[0] != "ball"@[0]);
        assert(l[0] != "quad"@[0] && l[1] != "plane"@[1]);
    }
}

/// Value of a hexadecimal digit character.
pub open spec fn hex_digit_val(c: char) -> Option<u8> {
    if '0' <= c <= '9' {
        Some((c as u32 - 48) as u8)
    } else if 'a' <= c <= 'f' {
        Some((c as u32 - 87) as u8)
    } else if 'A' <= c <= 'F' {
        Some((c as u32 - 55) as u8)
    } else {
        None
    }
}

/// A byte written as two characters, read as `u8::from_str_radix(_, 16)`
/// does: two hex digits, or a `+` sign and one digit.
pub open spec fn hex_byte(a: char, b: char) -> Option<u8> {
    if a == '+' {
        hex_digit_val(b)
    } else {
        match (hex_digit_val(a), hex_digit_val(b)) {
            (Some(x), Some(y)) => Some((x * 16 + y) as u8),
            _ => None,
        }
    }
}

/// The red, green and blue bytes of `#rgb` (each digit doubled) or
/// `#rrggbb` (after trimming white space).
pub open spec fn hex_color_of(token: Seq<char>) -> Option<(u8, u8, u8)> {
    let t = trimmed(token);
    if t.len() == 4 && t[0] == '#' {
        match (hex_byte(t[1], t[1]), hex_byte(t[2], t[2]), hex_byte(t[3], t[3])) {
            (Some(r), Some(g), Some(b)) => Some((r, g, b)),
            _ => None,
        }
    } else if t.len() == 7 && t[0] == '#' {
        match (hex_byte(t[1], t[2]), hex_byte(t[3], t[4]), hex_byte(t[5], t[6])) {
            (Some(r), Some(g), Some(b)) => Some((r, g, b)),
            _ => None,
        }
    } else {
        None
    }
}

fn hex_digit(c: char) -> (r: Option<u8>)
    ensures
        r == hex_digit_val(c),
{
    if '0' <= c && c <= '9' {
        Some((c as u32 - 48) as u8)
    } else if 'a' <= c && c <= 'f' {
        Some((c as u32 - 87) as u8)
    } else if 'A' <= c && c <= 'F' {
        Some((c as u32 - 55) as u8)
    } else {
        None
    }
}

fn hex_pair(a: char, b: char) -> (r: Option<u8>)
    ensures
        r == hex_byte(a, b),
{
    if a == '+' {
        return hex_digit(b);
    }
    match (hex_digit(a), hex_digit(b)) {
        (Some(x), Some(y)) => Some(x * 16 + y),
        _ => None,
    }
}

/// Decode a `#rgb` / `#rrggbb` color into its bytes; `None` for any other
/// token (including `r,g,b` triples, which carry real numbers).
pub fn parse_hex_color(token: &str) -> (r: Option<(u8, u8, u8)>)
    ensures
        r == hex_color_of(token@),
{
    let cs = chars_of(token);
    let t = trim_range(&cs, 0, cs.len());
    proof {
        assert(cs@.subrange(0, cs@.len() as int) =~= cs@);
    }
    if t.len() == 4 && t[0] == '#' {
        match (hex_pair(t[1], t[1]), hex_pair(t[2], t[2]), hex_pair(t[3], t[3])) {
            (Some(r), Some(g), Some(b)) => Some((r, g, b)),
            _ => None,
        }
    } else if t.len() == 7 && t[0] == '#' {
        match (hex_pair(t[1], t[2]), hex_pair(t[3], t[4]), hex_pair(t[5], t[6])) {
            (Some(r), Some(g), Some(b)) => Some((r, g, b)),
            _ => None,
        }
    } else {
        None
    }
}

/// The position of a record: its layer and its index in that layer.
pub type RecordRef = (usize, usize);

/// The records of layer `li` that are drawn, with their shapes: all of them
/// when the layer is visible, none otherwise.
pub open spec fn layer_items(li: int, visible: bool, shapes: Seq<GeometryType>) -> Seq<(GeometryType, RecordRef)> {
    if visible {
        Seq::new(shapes.len(), |ri: int| (shapes[ri], (li as usize, ri as usize)))
    } else {
        Seq::empty()
    }
}

/// The drawn records of all layers, layer by layer, in record order.
pub open spec fn visible_items(layers: Seq<(bool, Seq<GeometryType>)>) -> Seq<(GeometryType, RecordRef)>
    decreases layers.len(),
{
    if layers.len() == 0 {
        Seq::empty()
    } else {
        visible_items(layers.drop_last()) + layer_items(layers.len() - 1, layers.last().0, layers.last().1)
    }
}

/// The first batch drawn with shape `t`.
pub open spec fn batch_of(batches: Seq<(GeometryType, Seq<RecordRef>)>, t: GeometryType) -> Option<int>
    decreases batches.len(),
{
    if batches.len() == 0 {
        None
    } else {
        match batch_of(batches.drop_last(), t) {
            Some(j) => Some(j),
            None => if batches.last().0 == t { Some(batches.len() - 1) } else { None },
        }
    }
}

/// Items grouped by shape: one batch per shape, in order of the shape's
/// first item, each holding its items' records in order.
pub open spec fn grouped(items: Seq<(GeometryType, RecordRef)>) -> Seq<(GeometryType, Seq<RecordRef>)>
    decreases items.len(),
{
    if items.len() == 0 {
        Seq::empty()
    } else {
        let g = grouped(items.drop_last());
        let (t, p) = items.last();
        match batch_of(g, t) {
            Some(j) => g.update(j, (t, g[j].1.push(p))),
            None => g.push((t, seq![p])),
        }
    }
}

pub open spec fn layers_view(layers: Seq<(bool, Vec<GeometryType>)>) -> Seq<(bool, Seq<GeometryType>)> {
    layers.map_values(|l: (bool, Vec<GeometryType>)| (l.0, l.1@))
}

pub open spec fn batches_view(b: Seq<(GeometryType, Vec<RecordRef>)>) -> Seq<(GeometryType, Seq<RecordRef>)> {
    b.map_values(|x: (GeometryType, Vec<RecordRef>)| (x.0, x.1@))
}

proof fn lemma_batch_of(batches: Seq<(GeometryType, Seq<RecordRef>)>, t: GeometryType)
    ensures
        batch_of(batches, t) matches Some(j) ==> 0 <= j < batches.len() && batches[j].0 == t
            && forall|k: int| 0 <= k < j ==> #[trigger] batches[k].0 != t,
        batch_of(batches, t) is None ==> forall|k: int| 0 <= k < batches.len() ==> #[trigger] batches[k].0 != t,
    decreases batches.len(),
{
    if batches.len() > 0 {
        let d = batches.drop_last();
        lemma_batch_of(d, t);
        match batch_of(batches, t) {
            Some(j) => {
                assert forall|k: int| 0 <= k < j implies #[trigger] batches[k].0 != t by {
                    assert(d[k] == batches[k]);
                }
            },
            None => {
                assert forall|k: int| 0 <= k < batches.len() implies #[trigger] batches[k].0 != t by {
                    if k < d.len() {
                        assert(d[k] == batches[k]);
                    }
                }
            },
        }
    }
}

/// The first batch drawn with shape `t`, by a scan.
fn find_batch(batches: &Vec<(GeometryType, Vec<RecordRef>)>, t: GeometryType) -> (r: Option<usize>)
    ensures
        r is None <==> batch_of(batches_view(batches@), t) is None,
        r matches Some(j) ==> batch_of(batches_view(batches@), t) == Some(j as int),
{
    let ghost g = batches_view(batches@);
    proof {
        lemma_batch_of(g, t);
    }
    let mut j: usize = 0;
    while j < batches.len()
        invariant
            j <= batches@.len(),
            g == batches_view(batches@),
            forall|k: int| 0 <= k < j ==> #[trigger] g[k].0 != t,
        decreases batches@.len() - j,
    {
        if batches[j].0 == t {
            proof {
                lemma_batch_of(g, t);
                assert(g[j as int].0 == t);
                match batch_of(g, t) {
                    Some(k) => {
                        if k < j {
                            assert(g[k].0 != t);
                        } else if k > j {
                            assert(g[j as int].0 != t);
                        }
                    },
                    None => {
                        assert(g[j as int].0 != t);
                    },
                }
            }
            return Some(j);
        }
        j = j + 1;
    }
    proof {
        lemma_batch_of(g, t);
        if let Some(k) = batch_of(g, t) {
            assert(g[k].0 != t);
        }
    }
    None
}

/// Adds one drawn record to the batches built so far.
fn add_item(batches: &mut Vec<(GeometryType, Vec<RecordRef>)>, t: GeometryType, p: RecordRef, Ghost(items): Ghost<Seq<(GeometryType, RecordRef)>>)
    requires
        batches_view(old(batches)@) == grouped(items),
    ensures
        batches_view(final(batches)@) == grouped(items.push((t, p))),
{
    let ghost g = grouped(items);
    proof {
        assert(items.push((t, p)).drop_last() =~= items);
    }
    proof {
        lemma_batch_of(g, t);
    }
    match find_batch(batches, t) {
        Some(j) => {
            let ghost old_b = batches@;
            batches[j].1.push(p);
            proof {
                assert(batches@.len() == old_b.len());
                assert(batches@[j as int].0 == old_b[j as int].0);
                assert(batches@[j as int].1@ == old_b[j as int].1@.push(p));
                assert(forall|k: int| 0 <= k < old_b.len() && k != j ==> batches@[k] == old_b[k]);
                let want = g.update(j as int, (t, g[j as int].1.push(p)));
                assert(g == batches_view(old_b));
                assert(g[j as int].0 == t);
                assert forall|k: int| 0 <= k < want.len() implies #[trigger] batches_view(batches@)[k] == want[k] by {
                    assert(g[k] == (old_b[k].0, old_b[k].1@));
                }
                assert(batches_view(batches@) =~= want);
            }
        },
        None => {
            let mut fresh: Vec<RecordRef> = Vec::new();
            fresh.push(p);
            batches.push((t, fresh));
            proof {
                assert(batches_view(batches@) =~= g.push((t, seq![p])));
            }
        },
    }
}

/// Group the drawn records of all visible layers into one batch per shape
/// (see `grouped` and `visible_items`): each batch is one instanced draw.
pub fn build_batches(layers: &Vec<(bool, Vec<GeometryType>)>) -> (r: Vec<(GeometryType, Vec<RecordRef>)>)
    ensures
        batches_view(r@) == grouped(visible_items(layers_view(layers@))),
{
    let ghost lv = layers_view(layers@);
    let mut batches: Vec<(GeometryType, Vec<RecordRef>)> = Vec::new();
    let mut li: usize = 0;
    proof {
        assert(lv.take(0) =~= Seq::<(bool, Seq<GeometryType>)>::empty());
        assert(batches_view(batches@) =~= Seq::<(GeometryType, Seq<RecordRef>)>::empty());
    }
    while li < layers.len()
        invariant
            li <= layers@.len(),
            lv == layers_view(layers@),
            batches_view(batches@) == grouped(visible_items(lv.take(li as int))),
        decreases layers@.len() - li,
    {
        let ghost before = visible_items(lv.take(li as int));
        let ghost here = layer_items(li as int, layers@[li as int].0, layers@[li as int].1@);
        proof {
            assert(lv.take(li + 1).drop_last() =~= lv.take(li as int));
            assert(lv.take(li + 1).last() == lv[li as int]);
            assert(visible_items(lv.take(li + 1)) == before + here);
        }
        if layers[li].0 {
            let row = &layers[li].1;
            let mut ri: usize = 0;
            proof {
                assert(before + here.take(0) =~= before);
            }
            while ri < row.len()
                invariant
                    ri <= row@.len(),
                    li < layers@.len(),
                    row@ == layers@[li as int].1@,
                    layers@[li as int].0,
                    here == layer_items(li as int, true, row@),
                    batches_view(batches@) == grouped(before + here.take(ri as int)),
                decreases row@.len() - ri,
            {
                let t = row[ri];
                add_item(&mut batches, t, (li, ri), Ghost(before + here.take(ri as int)));
                proof {
                    assert(here[ri as int] == (t, (li, ri)));
                    assert((before + here.take(ri as int)).push((t, (li, ri))) =~= before + here.take(ri + 1));
                }
                ri = ri + 1;
            }
            proof {
                assert(here.take(row@.len() as int) =~= here);
            }
        } else {
            proof {
                assert(before + here =~= before);
            }
        }
        li = li + 1;
    }
    proof {
        assert(lv.take(layers@.len() as int) =~= lv);
    }
    batches
}

/// Batching draws every shape once: no two batches share a shape, and every
/// drawn record sits in the batch of its shape.
pub proof fn lemma_batches_cover(items: Seq<(GeometryType, RecordRef)>)
    ensures
        forall|a: int, b: int| 0 <= a < b < grouped(items).len() ==> #[trigger] grouped(items)[a].0 != #[trigger] grouped(items)[b].0,
        forall|m: int| 0 <= m < items.len() ==> exists|j: int| 0 <= j < grouped(items).len() && #[trigger] grouped(items)[j].0 == (#[trigger] items[m]).0
            && grouped(items)[j].1.contains(items[m].1),
    decreases items.len(),
{
    if items.len() > 0 {
        let d = items.drop_last();
        lemma_batches_cover(d);
        let g = grouped(d);
        let (t, p) = items.last();
        lemma_batch_of(g, t);
        let h = grouped(items);
        match batch_of(g, t) {
            Some(j) => {
                assert(h == g.update(j, (t, g[j].1.push(p))));
                assert forall|a: int, b: int| 0 <= a < b < h.len() implies #[trigger] h[a].0 != #[trigger] h[b].0 by {
                    assert(h[a].0 == g[a].0 && h[b].0 == g[b].0);
                }
                assert forall|m: int| 0 <= m < items.len() implies exists|k: int| 0 <= k < h.len() && #[trigger] h[k].0 == (#[trigger] items[m]).0
                    && h[k].1.contains(items[m].1) by {
                    if m < d.len() {
                        assert(items[m] == d[m]);
                        let k = choose|k: int| 0 <= k < g.len() && #[trigger] g[k].0 == d[m].0 && g[k].1.contains(d[m].1);
                        let w = choose|w: int| 0 <= w < g[k].1.len() && g[k].1[w] == d[m].1;
                        assert(h[k].1[w] == d[m].1);
                        assert(h[k].0 == items[m].0);
                    } else {
                        assert(h[j].1[h[j].1.len() - 1] == p);
                        assert(h[j].0 == items[m].0);
                    }
                }
            },
            None => {
                assert(h == g.push((t, seq![p])));
                assert forall|a: int, b: int| 0 <= a < b < h.len() implies #[trigger] h[a].0 != #[trigger] h[b].0 by {
                    if b == g.len() {
                        assert(h[a].0 == g[a].0);
                    } else {
                        assert(h[a].0 == g[a].0 && h[b].0 == g[b].0);
                    }
                }
                assert forall|m: int| 0 <= m < items.len() implies exists|k: int| 0 <= k < h.len() && #[trigger] h[k].0 == (#[trigger] items[m]).0
                    && h[k].1.contains(items[m].1) by {
                    if m < d.len() {
                        assert(items[m] == d[m]);
                        let k = choose|k: int| 0 <= k < g.len() && #[trigger] g[k].0 == d[m].0 && g[k].1.contains(d[m].1);
                        assert(h[k] == g[k]);
                    } else {
                        assert(h[g.len() as int].1[0] == p);
                        assert(h[g.len() as int].0 == items[m].0);
                    }
                }
            },
        }
    }
}

} // verus!
