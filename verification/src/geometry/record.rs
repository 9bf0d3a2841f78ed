//! Geometry records as read from text: every real number (coordinate,
//! angle, scale, colour channel) is kept as the text that was checked to be
//! a number, for the renderer to read as a float.

use vstd::prelude::*;
use crate::geometry::parser::{float_literal, is_float_literal};
use crate::geometry::{hex_color_of, parse_hex_color};
use crate::scene::GeometryType;
use crate::text::{chars_of, chars_seqs, split_chars, split_on, string_of, trim_range, trimmed};

verus! {

/// A colour as written: `#rgb` / `#rrggbb` bytes, or three channel numbers
/// (in 0–1 or 0–255).
#[derive(Debug, Clone, PartialEq)]
pub enum ColorText {
    Hex(u8, u8, u8),
    Rgb(Vec<String>),
}

/// Plain-value form of a colour.
pub enum ColorView {
    Hex(u8, u8, u8),
    Rgb(Seq<Seq<char>>),
}

pub open spec fn color_view(c: ColorText) -> ColorView {
    match c {
        ColorText::Hex(r, g, b) => ColorView::Hex(r, g, b),
        ColorText::Rgb(v) => ColorView::Rgb(v@.map_values(|s: String| s@)),
    }
}

/// One geometry as read from text. A missing coordinate or angle reads as
/// 0; an empty `scale` means the default (point size for points, else 1),
/// one entry a uniform scale, three entries a per-axis scale; a missing
/// colour means the default colour.
#[derive(Debug, Clone, PartialEq)]
pub struct RecordText {
    pub shape: GeometryType,
    pub is_point: bool,
    pub position: Vec<Option<String>>,
    pub rotation: Vec<Option<String>>,
    pub scale: Vec<String>,
    pub color: Option<ColorText>,
    pub label: Option<String>,
}

/// Plain-value form of a record.
pub struct RecordView {
    pub shape: GeometryType,
    pub is_point: bool,
    pub position: Seq<Option<Seq<char>>>,
    pub rotation: Seq<Option<Seq<char>>>,
    pub scale: Seq<Seq<char>>,
    pub color: Option<ColorView>,
    pub label: Option<Seq<char>>,
}

pub open spec fn opt_text(o: Option<String>) -> Option<Seq<char>> {
    match o {
        Some(s) => Some(s@),
        None => None,
    }
}

pub open spec fn record_view(r: RecordText) -> RecordView {
    RecordView {
        shape: r.shape,
        is_point: r.is_point,
        position: r.position@.map_values(|o: Option<String>| opt_text(o)),
        rotation: r.rotation@.map_values(|o: Option<String>| opt_text(o)),
        scale: r.scale@.map_values(|s: String| s@),
        color: match r.color {
            Some(c) => Some(color_view(c)),
            None => None,
        },
        label: opt_text(r.label),
    }
}

/// The comma-separated parts of `t`, trimmed, when there are exactly three
/// and each is a number.
pub open spec fn number_triple(t: Seq<char>) -> Option<Seq<Seq<char>>> {
    let parts = split_on(t, ',').map_values(|p: Seq<char>| trimmed(p));
    if parts.len() == 3 && float_literal(parts[0]) && float_literal(parts[1]) && float_literal(parts[2]) {
        Some(parts)
    } else {
        None
    }
}

/// A colour token: `#rgb` / `#rrggbb`, or three comma-separated numbers.
pub open spec fn color_text(token: Seq<char>) -> Option<ColorView> {
    let t = trimmed(token);
    if t.len() > 0 && t[0] == '#' {
        match hex_color_of(t) {
            Some((r, g, b)) => Some(ColorView::Hex(r, g, b)),
            None => None,
        }
    } else {
        match number_triple(t) {
            Some(p) => Some(ColorView::Rgb(p)),
            None => None,
        }
    }
}

fn strings_of(v: &Vec<Vec<char>>) -> (r: Vec<String>)
    ensures
        r@.map_values(|s: String| s@) == chars_seqs(v@),
{
    let mut out: Vec<String> = Vec::new();
    let mut i: usize = 0;
    while i < v.len()
        invariant
            i <= v@.len(),
            out@.map_values(|s: String| s@) == chars_seqs(v@).take(i as int),
        decreases v@.len() - i,
    {
        let ghost before = out@;
        out.push(string_of(&v[i]));
        proof {
            assert(out@.map_values(|s: String| s@) =~= before.map_values(|s: String| s@).push(v@[i as int]@));
            assert(chars_seqs(v@).take(i + 1) =~= chars_seqs(v@).take(i as int).push(v@[i as int]@));
        }
        i = i + 1;
    }
    proof {
        assert(chars_seqs(v@).take(v@.len() as int) =~= chars_seqs(v@));
    }
    out
}

/// Three comma-separated numbers, trimmed.
pub fn parse_number_triple(t: &Vec<char>) -> (r: Option<Vec<String>>)
    ensures
        match number_triple(t@) {
            Some(p) => r matches Some(v) && v@.map_values(|s: String| s@) == p,
            None => r is None,
        },
{
    let pieces = split_chars(t, ',');
    let ghost parts = split_on(t@, ',').map_values(|p: Seq<char>| trimmed(p));
    if pieces.len() != 3 {
        proof {
            assert(chars_seqs(pieces@).len() == pieces@.len());
        }
        return None;
    }
    let mut trimmed_parts: Vec<Vec<char>> = Vec::new();
    let mut i: usize = 0;
    while i < 3
        invariant
            i <= 3,
            pieces@.len() == 3,
            chars_seqs(pieces@) == split_on(t@, ','),
            parts == split_on(t@, ',').map_values(|p: Seq<char>| trimmed(p)),
            chars_seqs(trimmed_parts@) == parts.take(i as int),
        decreases 3 - i,
    {
        let p = &pieces[i];
        let tp = trim_range(p, 0, p.len());
        proof {
            assert(p@.subrange(0, p@.len() as int) =~= p@);
            assert(chars_seqs(pieces@)[i as int] == p@);
        }
        let ghost before = trimmed_parts@;
        trimmed_parts.push(tp);
        proof {
            assert(chars_seqs(trimmed_parts@) =~= chars_seqs(before).push(tp@));
            assert(parts.take(i + 1) =~= parts.take(i as int).push(parts[i as int]));
        }
        i = i + 1;
    }
    proof {
        assert(parts.take(3) =~= parts);
    }
    if is_float_literal(&trimmed_parts[0]) && is_float_literal(&trimmed_parts[1]) && is_float_literal(
        &trimmed_parts[2],
    ) {
        Some(strings_of(&trimmed_parts))
    } else {
        None
    }
}

/// Read a colour token (see [`ColorText`]).
pub fn parse_color_text(token: &str) -> (r: Option<ColorText>)
    ensures
        match color_text(token@) {
            Some(c) => r matches Some(x) && color_view(x) == c,
            None => r is None,
        },
{
    let cs = chars_of(token);
    let t = trim_range(&cs, 0, cs.len());
    proof {
        assert(cs@.subrange(0, cs@.len() as int) =~= cs@);
    }
    if t.len() > 0 && t[0] == '#' {
        match parse_hex_color(string_of(&t).as_str()) {
            Some((r, g, b)) => Some(ColorText::Hex(r, g, b)),
            None => None,
        }
    } else {
        match parse_number_triple(&t) {
            Some(p) => {
                let c = ColorText::Rgb(p);
                proof {
                    assert(color_view(c) == ColorView::Rgb(number_triple(t@)->Some_0));
                }
                Some(c)
            },
            None => None,
        }
    }
}

} // verus!
