//! Header-mapped geometry tables: one row = one geometry. Columns are found
//! by any of several names, compared without case after trimming.

use vstd::prelude::*;
use crate::geometry::parser::{float_literal, is_float_literal};
use crate::geometry::record::{color_text, parse_color_text, record_view, ColorText, ColorView, RecordText, RecordView};
use crate::geometry::{parse_shape, shape_of, GeometryError};
use crate::scene::GeometryType;
use crate::text::{ascii_lower, chars_eq, chars_of, lower_chars_of, string_of, trim_range, trimmed};

verus! {

/// A parsed-but-untyped table: headers and string cells.
#[derive(Debug, Clone)]
pub struct RecordTable {
    pub headers: Vec<String>,
    pub rows: Vec<Vec<String>>,
}

/// Whether a header names a column, after trimming and ignoring ASCII case.
pub open spec fn header_matches(h: Seq<char>, names: Seq<Seq<char>>) -> bool {
    exists|k: int| 0 <= k < names.len() && ascii_lower(trimmed(h)) == ascii_lower(#[trigger] names[k])
}

/// The first header that matches one of the names.
pub open spec fn column_of(hs: Seq<Seq<char>>, names: Seq<Seq<char>>) -> Option<int>
    decreases hs.len(),
{
    if hs.len() == 0 {
        None
    } else {
        match column_of(hs.drop_last(), names) {
            Some(i) => Some(i),
            None => if header_matches(hs.last(), names) {
                Some(hs.len() - 1)
            } else {
                None
            },
        }
    }
}

/// No column is found for a purpose exactly when no header, trimmed and
/// in any letter case, is one of its names.
pub proof fn lemma_column_absent(hs: Seq<Seq<char>>, names: Seq<Seq<char>>)
    ensures
        column_of(hs, names) is None <==> forall|k: int| 0 <= k < hs.len() ==> !header_matches(#[trigger] hs[k], names),
    decreases hs.len(),
{
    if hs.len() > 0 {
        lemma_column_absent(hs.drop_last(), names);
        if column_of(hs.drop_last(), names) is None && !header_matches(hs.last(), names) {
            assert forall|k: int| 0 <= k < hs.len() implies !header_matches(#[trigger] hs[k], names) by {
                if k < hs.len() - 1 {
                    assert(hs[k] == hs.drop_last()[k]);
                }
            }
        }
        if column_of(hs.drop_last(), names) is Some {
            let k = choose|k: int| 0 <= k < hs.drop_last().len() && header_matches(#[trigger] hs.drop_last()[k], names);
            assert(hs[k] == hs.drop_last()[k]);
        }
        if header_matches(hs.last(), names) {
            assert(hs[hs.len() - 1] == hs.last());
        }
    }
}

pub open spec fn strs_view(v: Seq<&str>) -> Seq<Seq<char>> {
    v.map_values(|s: &str| s@)
}

pub open spec fn strings_view(v: Seq<String>) -> Seq<Seq<char>> {
    v.map_values(|s: String| s@)
}

fn matches_any(h: &String, names: &[&str]) -> (r: bool)
    ensures
        r == header_matches(h@, strs_view(names@)),
{
    let cs = chars_of(h.as_str());
    let t = trim_range(&cs, 0, cs.len());
    proof {
        assert(cs@.subrange(0, cs@.len() as int) =~= cs@);
    }
    let lt = lower_chars_of(string_of(&t).as_str());
    let ghost nv = strs_view(names@);
    let mut k: usize = 0;
    while k < names.len()
        invariant
            k <= names@.len(),
            nv == strs_view(names@),
            lt@ == ascii_lower(trimmed(h@)),
            forall|j: int| 0 <= j < k ==> ascii_lower(trimmed(h@)) != ascii_lower(#[trigger] nv[j]),
        decreases names@.len() - k,
    {
        let ln = lower_chars_of(names[k]);
        if chars_eq(&lt, &ln) {
            proof {
                assert(nv[k as int] == names@[k as int]@);
            }
            return true;
        }
        k = k + 1;
    }
    false
}

/// Find a column index by any of several case-insensitive names.
pub fn col(headers: &[String], names: &[&str]) -> (r: Option<usize>)
    ensures
        match column_of(strings_view(headers@), strs_view(names@)) {
            Some(i) => r == Some(i as usize),
            None => r is None,
        },
{
    let ghost hs = strings_view(headers@);
    let ghost nv = strs_view(names@);
    let mut i: usize = 0;
    while i < headers.len()
        invariant
            i <= headers@.len(),
            hs == strings_view(headers@),
            nv == strs_view(names@),
            column_of(hs.take(i as int), nv) is None,
        decreases headers@.len() - i,
    {
        proof {
            assert(hs.take(i + 1).drop_last() =~= hs.take(i as int));
            assert(hs.take(i + 1).last() == headers@[i as int]@);
        }
        if matches_any(&headers[i], names) {
            proof {
                lemma_column_prefix(hs, nv, i as int + 1);
            }
            return Some(i);
        }
        i = i + 1;
    }
    proof {
        assert(hs.take(hs.len() as int) =~= hs);
    }
    None
}

proof fn lemma_column_prefix(hs: Seq<Seq<char>>, names: Seq<Seq<char>>, k: int)
    requires
        0 <= k <= hs.len(),
        column_of(hs.take(k), names) is Some,
    ensures
        column_of(hs, names) == column_of(hs.take(k), names),
    decreases hs.len() - k,
{
    if k < hs.len() {
        assert(hs.take(k + 1).drop_last() =~= hs.take(k));
        lemma_column_prefix(hs, names, k + 1);
    } else {
        assert(hs.take(k) =~= hs);
    }
}

/// The trimmed cell at `idx`, when the column exists, the row has it, and
/// it is not empty.
pub open spec fn cell_of(row: Seq<Seq<char>>, idx: Option<usize>) -> Option<Seq<char>> {
    match idx {
        Some(i) => if (i as int) < row.len() && trimmed(row[i as int]).len() > 0 {
            Some(trimmed(row[i as int]))
        } else {
            None
        },
        None => None,
    }
}

pub fn cell(row: &[String], idx: Option<usize>) -> (r: Option<String>)
    ensures
        match cell_of(strings_view(row@), idx) {
            Some(c) => r matches Some(s) && s@ == c,
            None => r is None,
        },
{
    match idx {
        Some(i) => {
            if i >= row.len() {
                return None;
            }
            let cs = chars_of(row[i].as_str());
            let t = trim_range(&cs, 0, cs.len());
            proof {
                assert(cs@.subrange(0, cs@.len() as int) =~= cs@);
            }
            if t.len() == 0 {
                None
            } else {
                Some(string_of(&t))
            }
        },
        None => None,
    }
}

/// Column indices of a geometry table, by purpose.
#[derive(Debug, Clone, Copy, PartialEq, Eq, Structural)]
pub struct TableColumns {
    pub shape: Option<usize>,
    pub x: Option<usize>,
    pub y: Option<usize>,
    pub z: Option<usize>,
    pub size: Option<usize>,
    pub sx: Option<usize>,
    pub sy: Option<usize>,
    pub sz: Option<usize>,
    pub rx: Option<usize>,
    pub ry: Option<usize>,
    pub rz: Option<usize>,
    pub color: Option<usize>,
    pub r: Option<usize>,
    pub g: Option<usize>,
    pub b: Option<usize>,
    pub label: Option<usize>,
}

pub open spec fn col_spec(hs: Seq<Seq<char>>, names: Seq<Seq<char>>) -> Option<usize> {
    match column_of(hs, names) {
        Some(i) => Some(i as usize),
        None => None,
    }
}

/// The columns of each purpose under their accepted names.
pub open spec fn columns_of(hs: Seq<Seq<char>>) -> TableColumns {
    TableColumns {
        shape: col_spec(hs, seq!["shape"@, "type"@, "geometry"@, "geom"@, "kind"@]),
        x: col_spec(hs, seq!["x"@, "px"@, "pos_x"@, "posx"@]),
        y: col_spec(hs, seq!["y"@, "py"@, "pos_y"@, "posy"@]),
        z: col_spec(hs, seq!["z"@, "pz"@, "pos_z"@, "posz"@]),
        size: col_spec(hs, seq!["size"@, "radius"@, "scale"@]),
        sx: col_spec(hs, seq!["sx"@, "scale_x"@]),
        sy: col_spec(hs, seq!["sy"@, "scale_y"@]),
        sz: col_spec(hs, seq!["sz"@, "scale_z"@]),
        rx: col_spec(hs, seq!["rx"@, "rot_x"@]),
        ry: col_spec(hs, seq!["ry"@, "rot_y"@]),
        rz: col_spec(hs, seq!["rz"@, "rot_z"@]),
        color: col_spec(hs, seq!["color"@, "colour"@, "col"@]),
        r: col_spec(hs, seq!["r"@, "red"@]),
        g: col_spec(hs, seq!["g"@, "green"@]),
        b: col_spec(hs, seq!["b"@, "blue"@]),
        label: col_spec(hs, seq!["label"@, "name"@, "id"@, "tag"@]),
    }
}

fn col_of(headers: &[String], names: &[&str]) -> (r: Option<usize>)
    ensures
        r == col_spec(strings_view(headers@), strs_view(names@)),
{
    col(headers, names)
}


/// The first of the checked cells (in order) that is present but not a
/// number, as the message reporting it.
pub open spec fn bad_number(row: Seq<Seq<char>>, checks: Seq<(Option<usize>, Seq<char>)>, i: int) -> Option<Seq<char>>
    decreases checks.len() - i,
{
    if i < 0 || i >= checks.len() {
        None
    } else {
        match cell_of(row, checks[i].0) {
            Some(s) => if float_literal(s) {
                bad_number(row, checks, i + 1)
            } else {
                Some("'"@ + s + "' is not a number for "@ + checks[i].1)
            },
            None => bad_number(row, checks, i + 1),
        }
    }
}

/// The placement columns, in the order a row reads them.
pub open spec fn placement_checks(c: TableColumns) -> Seq<(Option<usize>, Seq<char>)> {
    seq![
        (c.x, "x"@),
        (c.y, "y"@),
        (c.z, "z"@),
        (c.size, "size"@),
        (c.sx, "sx"@),
        (c.sy, "sy"@),
        (c.sz, "sz"@),
        (c.rx, "rx"@),
        (c.ry, "ry"@),
        (c.rz, "rz"@),
    ]
}

/// The colour-channel columns, in order.
pub open spec fn rgb_checks(c: TableColumns) -> Seq<(Option<usize>, Seq<char>)> {
    seq![(c.r, "r"@), (c.g, "g"@), (c.b, "b"@)]
}

/// The colour of a row: its colour cell, else its three channel cells.
pub open spec fn row_color(row: Seq<Seq<char>>, c: TableColumns) -> Result<Option<ColorView>, Seq<char>> {
    match cell_of(row, c.color) {
        Some(t) => match color_text(t) {
            Some(cv) => Ok(Some(cv)),
            None => Err("bad color '"@ + t + "'"@),
        },
        None => match bad_number(row, rgb_checks(c), 0) {
            Some(m) => Err(m),
            None => match (cell_of(row, c.r), cell_of(row, c.g), cell_of(row, c.b)) {
                (Some(r), Some(g), Some(b)) => Ok(Some(ColorView::Rgb(seq![r, g, b]))),
                _ => Ok(None),
            },
        },
    }
}

/// The scale of a row: per-axis when all three axis cells are present, else
/// uniform from the size cell, else the default.
pub open spec fn row_scale(row: Seq<Seq<char>>, c: TableColumns) -> Seq<Seq<char>> {
    match (cell_of(row, c.sx), cell_of(row, c.sy), cell_of(row, c.sz)) {
        (Some(x), Some(y), Some(z)) => seq![x, y, z],
        _ => match cell_of(row, c.size) {
            Some(s) => seq![s],
            None => Seq::empty(),
        },
    }
}

/// The record a table row describes, or the message of its first problem.
/// Without a shape cell the row is a point.
pub open spec fn row_record(row: Seq<Seq<char>>, c: TableColumns) -> Result<RecordView, Seq<char>> {
    let shape = match cell_of(row, c.shape) {
        Some(s) => shape_of(ascii_lower(s)),
        None => Some((GeometryType::Sphere, true)),
    };
    if shape is None {
        Err("unknown shape '"@ + cell_of(row, c.shape)->Some_0 + "'"@)
    } else if bad_number(row, placement_checks(c), 0) is Some {
        Err(bad_number(row, placement_checks(c), 0)->Some_0)
    } else {
        match row_color(row, c) {
            Err(m) => Err(m),
            Ok(color) => Ok(
                RecordView {
                    shape: (shape->Some_0).0,
                    is_point: (shape->Some_0).1,
                    position: seq![cell_of(row, c.x), cell_of(row, c.y), cell_of(row, c.z)],
                    rotation: seq![cell_of(row, c.rx), cell_of(row, c.ry), cell_of(row, c.rz)],
                    scale: row_scale(row, c),
                    color,
                    label: cell_of(row, c.label),
                },
            ),
        }
    }
}

/// The records of the rows, or the line (row index + 2, after the header)
/// and message of the first bad row.
pub open spec fn rows_records(rows: Seq<Seq<Seq<char>>>, c: TableColumns) -> Result<Seq<RecordView>, (int, Seq<char>)>
    decreases rows.len(),
{
    if rows.len() == 0 {
        Ok(Seq::empty())
    } else {
        match rows_records(rows.drop_last(), c) {
            Err(e) => Err(e),
            Ok(prev) => match row_record(rows.last(), c) {
                Err(m) => Err(((rows.len() + 1) as int, m)),
                Ok(r) => Ok(prev.push(r)),
            },
        }
    }
}

/// A table that reads gives one record per row, in row order: each
/// record's position is the cells of its row under the x, y and z columns,
/// its rotation those under the rx, ry and rz columns, and its label the cell
/// under the label column (each cell trimmed, and absent when empty).
pub proof fn lemma_records_follow_columns(rows: Seq<Seq<Seq<char>>>, c: TableColumns)
    ensures
        rows_records(rows, c) matches Ok(vs) ==> {
            &&& vs.len() == rows.len()
            &&& forall|i: int|
                0 <= i < rows.len() ==> {
                    &&& (#[trigger] vs[i]).position == seq![
                        cell_of(rows[i], c.x),
                        cell_of(rows[i], c.y),
                        cell_of(rows[i], c.z),
                    ]
                    &&& vs[i].rotation == seq![cell_of(rows[i], c.rx), cell_of(rows[i], c.ry), cell_of(rows[i], c.rz)]
                    &&& vs[i].label == cell_of(rows[i], c.label)
                }
        },
    decreases rows.len(),
{
    if rows.len() > 0 {
        let d = rows.drop_last();
        lemma_records_follow_columns(d, c);
        if rows_records(rows, c) is Ok {
            let vs = rows_records(rows, c)->Ok_0;
            let prev = rows_records(d, c)->Ok_0;
            assert forall|i: int| 0 <= i < rows.len() - 1 implies #[trigger] vs[i] == prev[i] && rows[i] == d[i] by {}
        }
    }
}

pub open spec fn rows_view(rows: Seq<Vec<String>>) -> Seq<Seq<Seq<char>>> {
    rows.map_values(|r: Vec<String>| strings_view(r@))
}

pub open spec fn checks_view(cs: Seq<(Option<usize>, &str)>) -> Seq<(Option<usize>, Seq<char>)> {
    cs.map_values(|e: (Option<usize>, &str)| (e.0, e.1@))
}

fn first_bad_number(row: &[String], checks: &[(Option<usize>, &str)]) -> (r: Option<String>)
    ensures
        match bad_number(strings_view(row@), checks_view(checks@), 0) {
            Some(m) => r matches Some(s) && s@ == m,
            None => r is None,
        },
{
    let ghost rv = strings_view(row@);
    let ghost cv = checks_view(checks@);
    let mut i: usize = 0;
    while i < checks.len()
        invariant
            i <= checks@.len(),
            rv == strings_view(row@),
            cv == checks_view(checks@),
            bad_number(rv, cv, 0) == bad_number(rv, cv, i as int),
        decreases checks@.len() - i,
    {
        let (idx, what) = checks[i];
        proof {
            assert(cv[i as int] == (idx, what@));
        }
        match cell(row, idx) {
            Some(s) => {
                let sc = chars_of(s.as_str());
                if !is_float_literal(&sc) {
                    let mut m = String::from_str("'");
                    m.append(s.as_str());
                    m.append("' is not a number for ");
                    m.append(what);
                    return Some(m);
                }
            },
            None => {},
        }
        i = i + 1;
    }
    None
}

fn row_text(row: &[String], c: &TableColumns) -> (r: Result<RecordText, String>)
    ensures
        match row_record(strings_view(row@), *c) {
            Ok(v) => r matches Ok(t) && record_view(t) == v,
            Err(m) => r matches Err(e) && e@ == m,
        },
{
    let ghost rv = strings_view(row@);
    let (shape, is_point) = match cell(row, c.shape) {
        Some(s) => match parse_shape(s.as_str()) {
            Some(x) => x,
            None => {
                let mut m = String::from_str("unknown shape '");
                m.append(s.as_str());
                m.append("'");
                return Err(m);
            },
        },
        None => (GeometryType::Sphere, true),
    };
    let placement = [
        (c.x, "x"),
        (c.y, "y"),
        (c.z, "z"),
        (c.size, "size"),
        (c.sx, "sx"),
        (c.sy, "sy"),
        (c.sz, "sz"),
        (c.rx, "rx"),
        (c.ry, "ry"),
        (c.rz, "rz"),
    ];
    proof {
        assert(checks_view(placement@) =~= placement_checks(*c));
    }
    match first_bad_number(row, &placement) {
        Some(m) => return Err(m),
        None => {},
    }
    let color: Option<ColorText> = match cell(row, c.color) {
        Some(t) => match parse_color_text(t.as_str()) {
            Some(x) => Some(x),
            None => {
                let mut m = String::from_str("bad color '");
                m.append(t.as_str());
                m.append("'");
                return Err(m);
            },
        },
        None => {
            let rgb = [(c.r, "r"), (c.g, "g"), (c.b, "b")];
            proof {
                assert(checks_view(rgb@) =~= rgb_checks(*c));
            }
            match first_bad_number(row, &rgb) {
                Some(m) => return Err(m),
                None => {},
            }
            match (cell(row, c.r), cell(row, c.g), cell(row, c.b)) {
                (Some(r), Some(g), Some(b)) => {
                    let v = vec![r, g, b];
                    let ct = ColorText::Rgb(v);
                    proof {
                        assert(v@.map_values(|s: String| s@) =~= seq![r@, g@, b@]);
                    }
                    Some(ct)
                },
                _ => None,
            }
        },
    };
    let scale: Vec<String> = match (cell(row, c.sx), cell(row, c.sy), cell(row, c.sz)) {
        (Some(x), Some(y), Some(z)) => vec![x, y, z],
        _ => match cell(row, c.size) {
            Some(s) => vec![s],
            None => Vec::new(),
        },
    };
    let position = vec![cell(row, c.x), cell(row, c.y), cell(row, c.z)];
    let rotation = vec![cell(row, c.rx), cell(row, c.ry), cell(row, c.rz)];
    let label = cell(row, c.label);
    let r = RecordText { shape, is_point, position, rotation, scale, color, label };
    proof {
        let v = record_view(r);
        assert(v.position =~= seq![cell_of(rv, c.x), cell_of(rv, c.y), cell_of(rv, c.z)]);
        assert(v.rotation =~= seq![cell_of(rv, c.rx), cell_of(rv, c.ry), cell_of(rv, c.rz)]);
        assert(v.scale =~= row_scale(rv, *c));
    }
    Ok(r)
}

proof fn lemma_rows_error_persists(rows: Seq<Seq<Seq<char>>>, c: TableColumns, k: int)
    requires
        0 <= k <= rows.len(),
        rows_records(rows.take(k), c) is Err,
    ensures
        rows_records(rows, c) == rows_records(rows.take(k), c),
    decreases rows.len() - k,
{
    if k < rows.len() {
        assert(rows.take(k + 1).drop_last() =~= rows.take(k));
        lemma_rows_error_persists(rows, c, k + 1);
    } else {
        assert(rows.take(k) =~= rows);
    }
}

impl RecordTable {
    /// Resolve the columns of every purpose; a table without x, y and z
    /// columns is a format error.
    pub fn columns(&self) -> (r: Result<TableColumns, GeometryError>)
        ensures
            ({
                let c = columns_of(strings_view(self.headers@));
                if c.x is None || c.y is None || c.z is None {
                    r matches Err(GeometryError::Format(m)) && m@ == "table needs x, y and z columns (see docs/GEOMETRY_IMPORT.md)"@
                } else {
                    r == Ok::<TableColumns, GeometryError>(c)
                }
            }),
    {
        let h = self.headers.as_slice();
        let n_shape = ["shape", "type", "geometry", "geom", "kind"];
        let n_x = ["x", "px", "pos_x", "posx"];
        let n_y = ["y", "py", "pos_y", "posy"];
        let n_z = ["z", "pz", "pos_z", "posz"];
        let n_size = ["size", "radius", "scale"];
        let n_sx = ["sx", "scale_x"];
        let n_sy = ["sy", "scale_y"];
        let n_sz = ["sz", "scale_z"];
        let n_rx = ["rx", "rot_x"];
        let n_ry = ["ry", "rot_y"];
        let n_rz = ["rz", "rot_z"];
        let n_color = ["color", "colour", "col"];
        let n_r = ["r", "red"];
        let n_g = ["g", "green"];
        let n_b = ["b", "blue"];
        let n_label = ["label", "name", "id", "tag"];
        proof {
            assert(strs_view(n_shape@) =~= seq!["shape"@, "type"@, "geometry"@, "geom"@, "kind"@]);
            assert(strs_view(n_x@) =~= seq!["x"@, "px"@, "pos_x"@, "posx"@]);
            assert(strs_view(n_y@) =~= seq!["y"@, "py"@, "pos_y"@, "posy"@]);
            assert(strs_view(n_z@) =~= seq!["z"@, "pz"@, "pos_z"@, "posz"@]);
            assert(strs_view(n_size@) =~= seq!["size"@, "radius"@, "scale"@]);
            assert(strs_view(n_sx@) =~= seq!["sx"@, "scale_x"@]);
            assert(strs_view(n_sy@) =~= seq!["sy"@, "scale_y"@]);
            assert(strs_view(n_sz@) =~= seq!["sz"@, "scale_z"@]);
            assert(strs_view(n_rx@) =~= seq!["rx"@, "rot_x"@]);
            assert(strs_view(n_ry@) =~= seq!["ry"@, "rot_y"@]);
            assert(strs_view(n_rz@) =~= seq!["rz"@, "rot_z"@]);
            assert(strs_view(n_color@) =~= seq!["color"@, "colour"@, "col"@]);
            assert(strs_view(n_r@) =~= seq!["r"@, "red"@]);
            assert(strs_view(n_g@) =~= seq!["g"@, "green"@]);
            assert(strs_view(n_b@) =~= seq!["b"@, "blue"@]);
            assert(strs_view(n_label@) =~= seq!["label"@, "name"@, "id"@, "tag"@]);
        }
        let c = TableColumns {
            shape: col_of(h, &n_shape),
            x: col_of(h, &n_x),
            y: col_of(h, &n_y),
            z: col_of(h, &n_z),
            size: col_of(h, &n_size),
            sx: col_of(h, &n_sx),
            sy: col_of(h, &n_sy),
            sz: col_of(h, &n_sz),
            rx: col_of(h, &n_rx),
            ry: col_of(h, &n_ry),
            rz: col_of(h, &n_rz),
            color: col_of(h, &n_color),
            r: col_of(h, &n_r),
            g: col_of(h, &n_g),
            b: col_of(h, &n_b),
            label: col_of(h, &n_label),
        };
        if c.x.is_none() || c.y.is_none() || c.z.is_none() {
            return Err(GeometryError::Format(String::from_str("table needs x, y and z columns (see docs/GEOMETRY_IMPORT.md)")));
        }
        Ok(c)
    }
    /// The records of every row (row `i` is reported as line `i + 2`, after
    /// the header). A table without x, y and z columns is a format error.
    pub fn to_records(&self) -> (r: Result<Vec<RecordText>, GeometryError>)
        requires
            self.rows@.len() + 2 <= usize::MAX,
        ensures
            ({
                let c = columns_of(strings_view(self.headers@));
                if c.x is None || c.y is None || c.z is None {
                    r matches Err(GeometryError::Format(m)) && m@ == "table needs x, y and z columns (see docs/GEOMETRY_IMPORT.md)"@
                } else {
                    match rows_records(rows_view(self.rows@), c) {
                        Ok(vs) => r matches Ok(ts) && ts@.map_values(|t: RecordText| record_view(t)) == vs,
                        Err((line, m)) => r matches Err(GeometryError::Parse { line: l, message }) && l == line
                            && message@ == m,
                    }
                }
            }),
    {
        let c = self.columns()?;
        let ghost rows = rows_view(self.rows@);
        let mut out: Vec<RecordText> = Vec::new();
        proof {
            assert(rows.take(0) =~= Seq::<Seq<Seq<char>>>::empty());
            assert(out@.map_values(|t: RecordText| record_view(t)) =~= Seq::<RecordView>::empty());
        }
        let mut i: usize = 0;
        while i < self.rows.len()
            invariant
                i <= self.rows@.len(),
                self.rows@.len() + 2 <= usize::MAX,
                rows == rows_view(self.rows@),
                c == columns_of(strings_view(self.headers@)),
                c.x is Some && c.y is Some && c.z is Some,
                rows_records(rows.take(i as int), c) == Ok::<Seq<RecordView>, (int, Seq<char>)>(
                    out@.map_values(|t: RecordText| record_view(t)),
                ),
            decreases self.rows@.len() - i,
        {
            proof {
                assert(rows.take(i + 1).drop_last() =~= rows.take(i as int));
                assert(rows.take(i + 1).last() == strings_view(self.rows@[i as int]@));
            }
            match row_text(self.rows[i].as_slice(), &c) {
                Ok(t) => {
                    let ghost before = out@;
                    out.push(t);
                    proof {
                        assert(out@.map_values(|t: RecordText| record_view(t)) =~= before.map_values(
                            |t: RecordText| record_view(t),
                        ).push(record_view(t)));
                    }
                },
                Err(message) => {
                    proof {
                        assert(row_record(rows.take(i + 1).last(), c) == Err::<RecordView, Seq<char>>(message@));
                        assert(rows_records(rows.take(i + 1), c) == Err::<Seq<RecordView>, (int, Seq<char>)>(
                            ((i + 2) as int, message@),
                        ));
                        lemma_rows_error_persists(rows, c, i + 1);
                    }
                    return Err(GeometryError::Parse { line: i + 2, message });
                },
            }
            i = i + 1;
        }
        proof {
            assert(rows.take(rows.len() as int) =~= rows);
        }
        Ok(out)
    }
}

/// A header's text as columns are matched: trimmed and lower-cased.
pub open spec fn header_key(h: Seq<char>) -> Seq<char> {
    ascii_lower(trimmed(h))
}

/// `c` is the first header whose key is one of `names`, or none when no
/// header's key is.
pub open spec fn picks_named(hs: Seq<Seq<char>>, c: Option<usize>, names: Seq<Seq<char>>) -> bool {
    match c {
        Some(i) => i < hs.len() && names.contains(header_key(hs[i as int])) && forall|j: int|
            0 <= j < i ==> !names.contains(header_key(#[trigger] hs[j])),
        None => forall|j: int| 0 <= j < hs.len() ==> !names.contains(header_key(#[trigger] hs[j])),
    }
}

proof fn lemma_lower_fixed(s: Seq<char>)
    requires
        forall|i: int| 0 <= i < s.len() ==> !('A' <= #[trigger] s[i] <= 'Z'),
    ensures
        ascii_lower(s) == s,
{
    assert(ascii_lower(s) =~= s);
}

proof fn lemma_picks(hs: Seq<Seq<char>>, names: Seq<Seq<char>>)
    requires
        hs.len() <= usize::MAX,
        forall|k: int| 0 <= k < names.len() ==> ascii_lower(#[trigger] names[k]) == names[k],
    ensures
        picks_named(hs, col_spec(hs, names), names),
    decreases hs.len(),
{
    assert forall|h: Seq<char>| header_matches(h, names) <==> names.contains(#[trigger] header_key(h)) by {
        if header_matches(h, names) {
            let k = choose|k: int| 0 <= k < names.len() && ascii_lower(trimmed(h)) == ascii_lower(#[trigger] names[k]);
            assert(names[k] == header_key(h));
        }
        if names.contains(header_key(h)) {
            let k = choose|k: int| 0 <= k < names.len() && names[k] == header_key(h);
            assert(ascii_lower(names[k]) == names[k]);
        }
    }
    if hs.len() > 0 {
        let d = hs.drop_last();
        lemma_picks(d, names);
        assert forall|j: int| 0 <= j < d.len() implies #[trigger] d[j] == hs[j] by {}
        assert(hs.last() == hs[hs.len() - 1]);
        match column_of(d, names) {
            Some(i) => {
                let iu = i as usize;
                assert(col_spec(d, names) == Some(iu));
                assert(col_spec(hs, names) == Some(iu));
                assert(iu < d.len());
                assert(d[iu as int] == hs[iu as int]);
                assert forall|j: int| 0 <= j < iu implies !names.contains(header_key(#[trigger] hs[j])) by {
                    assert(d[j] == hs[j]);
                }
            },
            None => {
                if header_matches(hs.last(), names) {
                    assert(col_spec(hs, names) == Some((hs.len() - 1) as usize));
                    assert forall|j: int| 0 <= j < hs.len() - 1 implies !names.contains(header_key(#[trigger] hs[j])) by {
                        assert(d[j] == hs[j]);
                    }
                } else {
                    assert(col_spec(hs, names) is None);
                    assert forall|j: int| 0 <= j < hs.len() implies !names.contains(header_key(#[trigger] hs[j])) by {
                        if j < d.len() {
                            assert(d[j] == hs[j]);
                        }
                    }
                }
            },
        }
    }
}

/// Columns are found by name: each purpose's column is the first header
/// that, trimmed and lower-cased, is one of that purpose's names.
pub proof fn lemma_columns_by_name(hs: Seq<Seq<char>>)
    requires
        hs.len() <= usize::MAX,
    ensures
        picks_named(hs, columns_of(hs).shape, seq!["shape"@, "type"@, "geometry"@, "geom"@, "kind"@]),
        picks_named(hs, columns_of(hs).x, seq!["x"@, "px"@, "pos_x"@, "posx"@]),
        picks_named(hs, columns_of(hs).y, seq!["y"@, "py"@, "pos_y"@, "posy"@]),
        picks_named(hs, columns_of(hs).z, seq!["z"@, "pz"@, "pos_z"@, "posz"@]),
        picks_named(hs, columns_of(hs).size, seq!["size"@, "radius"@, "scale"@]),
        picks_named(hs, columns_of(hs).sx, seq!["sx"@, "scale_x"@]),
        picks_named(hs, columns_of(hs).sy, seq!["sy"@, "scale_y"@]),
        picks_named(hs, columns_of(hs).sz, seq!["sz"@, "scale_z"@]),
        picks_named(hs, columns_of(hs).rx, seq!["rx"@, "rot_x"@]),
        picks_named(hs, columns_of(hs).ry, seq!["ry"@, "rot_y"@]),
        picks_named(hs, columns_of(hs).rz, seq!["rz"@, "rot_z"@]),
        picks_named(hs, columns_of(hs).color, seq!["color"@, "colour"@, "col"@]),
        picks_named(hs, columns_of(hs).r, seq!["r"@, "red"@]),
        picks_named(hs, columns_of(hs).g, seq!["g"@, "green"@]),
        picks_named(hs, columns_of(hs).b, seq!["b"@, "blue"@]),
        picks_named(hs, columns_of(hs).label, seq!["label"@, "name"@, "id"@, "tag"@]),
{
    reveal_strlit("b");
    reveal_strlit("blue");
    reveal_strlit("col");
    reveal_strlit("color");
    reveal_strlit("colour");
    reveal_strlit("g");
    reveal_strlit("geom");
    reveal_strlit("geometry");
    reveal_strlit("green");
    reveal_strlit("id");
    reveal_strlit("kind");
    reveal_strlit("label");
    reveal_strlit("name");
    reveal_strlit("pos_x");
    reveal_strlit("pos_y");
    reveal_strlit("pos_z");
    reveal_strlit("posx");
    reveal_strlit("posy");
    reveal_strlit("posz");
    reveal_strlit("px");
    reveal_strlit("py");
    reveal_strlit("pz");
    reveal_strlit("r");
    reveal_strlit("radius");
    reveal_strlit("red");
    reveal_strlit("rot_x");
    reveal_strlit("rot_y");
    reveal_strlit("rot_z");
    reveal_strlit("rx");
    reveal_strlit("ry");
    reveal_strlit("rz");
    reveal_strlit("scale");
    reveal_strlit("scale_x");
    reveal_strlit("scale_y");
    reveal_strlit("scale_z");
    reveal_strlit("shape");
    reveal_strlit("size");
    reveal_strlit("sx");
    reveal_strlit("sy");
    reveal_strlit("sz");
    reveal_strlit("tag");
    reveal_strlit("type");
    reveal_strlit("x");
    reveal_strlit("y");
    reveal_strlit("z");
    lemma_lower_fixed("b"@);
    lemma_lower_fixed("blue"@);
    lemma_lower_fixed("col"@);
    lemma_lower_fixed("color"@);
    lemma_lower_fixed("colour"@);
    lemma_lower_fixed("g"@);
    lemma_lower_fixed("geom"@);
    lemma_lower_fixed("geometry"@);
    lemma_lower_fixed("green"@);
    lemma_lower_fixed("id"@);
    lemma_lower_fixed("kind"@);
    lemma_lower_fixed("label"@);
    lemma_lower_fixed("name"@);
    lemma_lower_fixed("pos_x"@);
    lemma_lower_fixed("pos_y"@);
    lemma_lower_fixed("pos_z"@);
    lemma_lower_fixed("posx"@);
    lemma_lower_fixed("posy"@);
    lemma_lower_fixed("posz"@);
    lemma_lower_fixed("px"@);
    lemma_lower_fixed("py"@);
    lemma_lower_fixed("pz"@);
    lemma_lower_fixed("r"@);
    lemma_lower_fixed("radius"@);
    lemma_lower_fixed("red"@);
    lemma_lower_fixed("rot_x"@);
    lemma_lower_fixed("rot_y"@);
    lemma_lower_fixed("rot_z"@);
    lemma_lower_fixed("rx"@);
    lemma_lower_fixed("ry"@);
    lemma_lower_fixed("rz"@);
    lemma_lower_fixed("scale"@);
    lemma_lower_fixed("scale_x"@);
    lemma_lower_fixed("scale_y"@);
    lemma_lower_fixed("scale_z"@);
    lemma_lower_fixed("shape"@);
    lemma_lower_fixed("size"@);
    lemma_lower_fixed("sx"@);
    lemma_lower_fixed("sy"@);
    lemma_lower_fixed("sz"@);
    lemma_lower_fixed("tag"@);
    lemma_lower_fixed("type"@);
    lemma_lower_fixed("x"@);
    lemma_lower_fixed("y"@);
    lemma_lower_fixed("z"@);
    lemma_picks(hs, seq!["shape"@, "type"@, "geometry"@, "geom"@, "kind"@]);
    lemma_picks(hs, seq!["x"@, "px"@, "pos_x"@, "posx"@]);
    lemma_picks(hs, seq!["y"@, "py"@, "pos_y"@, "posy"@]);
    lemma_picks(hs, seq!["z"@, "pz"@, "pos_z"@, "posz"@]);
    lemma_picks(hs, seq!["size"@, "radius"@, "scale"@]);
    lemma_picks(hs, seq!["sx"@, "scale_x"@]);
    lemma_picks(hs, seq!["sy"@, "scale_y"@]);
    lemma_picks(hs, seq!["sz"@, "scale_z"@]);
    lemma_picks(hs, seq!["rx"@, "rot_x"@]);
    lemma_picks(hs, seq!["ry"@, "rot_y"@]);
    lemma_picks(hs, seq!["rz"@, "rot_z"@]);
    lemma_picks(hs, seq!["color"@, "colour"@, "col"@]);
    lemma_picks(hs, seq!["r"@, "red"@]);
    lemma_picks(hs, seq!["g"@, "green"@]);
    lemma_picks(hs, seq!["b"@, "blue"@]);
    lemma_picks(hs, seq!["label"@, "name"@, "id"@, "tag"@]);
}

} // verus!
