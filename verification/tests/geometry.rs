use render3d::geometry::json::{json_records, JsonColor, JsonRecord};
use render3d::geometry::dsl::{parse_dsl, parse_dsl_record};
use render3d::geometry::parser::{logical_lines, looks_like_xyz};
use render3d::geometry::record::{parse_color_text, ColorText, RecordText};
use render3d::geometry::source::{format_for_extension, load_string, looks_like_json, parse_auto, require_records, GeometryFormat, TextImport};
use render3d::geometry::xyz::{parse_xyz, parse_xyz_record, split_fields};
use render3d::geometry::table::{cell, col, RecordTable};
use render3d::geometry::{build_batches, parse_hex_color, parse_shape, GeometryError};
use render3d::mesh::{append_offset, double_sided, mesh_format, part_fits, MeshFormat};
use render3d::scene::GeometryType;

fn table(headers: &[&str], rows: &[&[&str]]) -> RecordTable {
    RecordTable {
        headers: headers.iter().map(|s| s.to_string()).collect(),
        rows: rows.iter().map(|r| r.iter().map(|s| s.to_string()).collect()).collect(),
    }
}

#[test]
fn shape_aliases_resolve() {
    assert_eq!(parse_shape("cube"), Some((GeometryType::Cube, false)));
    assert_eq!(parse_shape("BOX"), Some((GeometryType::Cube, false)));
    assert_eq!(parse_shape("ball"), Some((GeometryType::Sphere, false)));
    assert_eq!(parse_shape("Quad"), Some((GeometryType::Plane, false)));
    assert_eq!(parse_shape("point"), Some((GeometryType::Sphere, true)));
    assert_eq!(parse_shape("dodecahedron"), None);
}

#[test]
fn hex_colors_decode_to_bytes() {
    assert_eq!(parse_hex_color("#ff0000"), Some((255, 0, 0)));
    assert_eq!(parse_hex_color("#0f0"), Some((0, 255, 0)));
    assert_eq!(parse_hex_color(" #0080FF "), Some((0, 128, 255)));
    assert_eq!(parse_hex_color("#zzz"), None);
    assert_eq!(parse_hex_color("1,2"), None);
    assert_eq!(parse_hex_color("notacolor"), None);
    assert_eq!(parse_hex_color("#ff00"), None);
}

#[test]
fn logical_lines_split_records_and_drop_comments() {
    let text = "cube 0 0 0; sphere 1 1 1\n# comment\n\n  // also a comment\nplane 2 2 2 ;";
    let lines = logical_lines(text);
    assert_eq!(
        lines,
        vec![
            (1, "cube 0 0 0".to_string()),
            (1, "sphere 1 1 1".to_string()),
            (5, "plane 2 2 2".to_string()),
        ]
    );
    assert!(logical_lines("").is_empty());
}

#[test]
fn table_columns_map_every_header() {
    let t = table(
        &["Type", "x", "y", "z", "size", "rx", "ry", "rz", "color", "name"],
        &[&["cube", "1", "2", "3", "2.5", "0", "45", "0", "#ff0000", "boxy"]],
    );
    let c = t.columns().unwrap();
    assert_eq!(c.shape, Some(0));
    assert_eq!((c.x, c.y, c.z), (Some(1), Some(2), Some(3)));
    assert_eq!(c.size, Some(4));
    assert_eq!((c.rx, c.ry, c.rz), (Some(5), Some(6), Some(7)));
    assert_eq!(c.color, Some(8));
    assert_eq!(c.label, Some(9));
    assert_eq!((c.sx, c.r), (None, None));
    assert_eq!(cell(&t.rows[0], c.label), Some("boxy".to_string()));
}

#[test]
fn table_columns_find_rgb_and_per_axis_scale() {
    let t = table(
        &["shape", "x", "y", "z", "sx", "sy", "sz", "red", "green", "blue"],
        &[&["plane", "0", "0", "0", "4", "1", "2", "255", "0", "0"]],
    );
    let c = t.columns().unwrap();
    assert_eq!((c.sx, c.sy, c.sz), (Some(4), Some(5), Some(6)));
    assert_eq!((c.r, c.g, c.b), (Some(7), Some(8), Some(9)));
    assert_eq!(c.size, None);
}

#[test]
fn table_without_xyz_is_a_format_error() {
    let t = table(&["a", "b"], &[]);
    let err = t.columns().unwrap_err();
    assert!(matches!(err, GeometryError::Format(_)));
    assert!(err.message().contains("x, y and z"));
}

#[test]
fn col_matches_trimmed_names_without_case() {
    let headers: Vec<String> = vec![" POS_X ".into(), "y".into(), "Y".into()];
    assert_eq!(col(&headers, &["x", "pos_x"]), Some(0));
    assert_eq!(col(&headers, &["y"]), Some(1));
    assert_eq!(col(&headers, &["z"]), None);
}

#[test]
fn cell_is_trimmed_and_empty_cells_are_absent() {
    let row: Vec<String> = vec!["  a ".into(), "   ".into()];
    assert_eq!(cell(&row, Some(0)), Some("a".to_string()));
    assert_eq!(cell(&row, Some(1)), None);
    assert_eq!(cell(&row, Some(5)), None);
    assert_eq!(cell(&row, None), None);
}

#[test]
fn parse_errors_name_their_line() {
    let e = GeometryError::Parse { line: 2, message: "unknown shape 'spherex'".into() };
    assert_eq!(e.message(), "line 2: unknown shape 'spherex'");
}

const DEFAULT_COLOR: [f32; 3] = [0.8, 0.8, 0.8];
const POINT_SIZE: f32 = 0.1;

fn num(s: &str) -> f32 {
    s.parse::<f32>().unwrap()
}

fn color_floats(c: &ColorText) -> [f32; 3] {
    match c {
        ColorText::Hex(r, g, b) => [*r as f32 / 255.0, *g as f32 / 255.0, *b as f32 / 255.0],
        ColorText::Rgb(v) => {
            let c = [num(&v[0]), num(&v[1]), num(&v[2])];
            if c.iter().any(|x| *x > 1.0) {
                [c[0] / 255.0, c[1] / 255.0, c[2] / 255.0]
            } else {
                c
            }
        }
    }
}

/// A record read as numbers: (position, rotation, scale, color, label).
#[derive(Debug)]
struct Rec {
    shape: GeometryType,
    position: [f32; 3],
    rotation: [f32; 3],
    scale: [f32; 3],
    color: [f32; 3],
    label: Option<String>,
}

fn rec(r: &RecordText) -> Rec {
    rec_colored(r, DEFAULT_COLOR)
}

fn rec_colored(r: &RecordText, default_color: [f32; 3]) -> Rec {
    let axis = |v: &Vec<Option<String>>, i: usize| v.get(i).and_then(|o| o.as_deref()).map(num).unwrap_or(0.0);
    let scale = match r.scale.len() {
        0 => [if r.is_point { POINT_SIZE } else { 1.0 }; 3],
        1 => [num(&r.scale[0]); 3],
        _ => [num(&r.scale[0]), num(&r.scale[1]), num(&r.scale[2])],
    };
    Rec {
        shape: r.shape,
        position: [axis(&r.position, 0), axis(&r.position, 1), axis(&r.position, 2)],
        rotation: [axis(&r.rotation, 0), axis(&r.rotation, 1), axis(&r.rotation, 2)],
        scale,
        color: r.color.as_ref().map(color_floats).unwrap_or(default_color),
        label: r.label.clone(),
    }
}

#[test]
fn dsl_parses_full_scene() {
    let text = "\
# comment
cube   0 0 0  2        #ff8800  base
sphere 0 0 2  0.5      color=0,1,0 label=marker
plane  0 0 -1 4 4 1    rot=0,0,45  floor tile
point  1 1 1; ball 5 5 5 radius=2
";
    let recs: Vec<Rec> = parse_dsl(text).unwrap().iter().map(rec).collect();
    assert_eq!(recs.len(), 5);
    assert_eq!(recs[0].shape, GeometryType::Cube);
    assert_eq!(recs[0].scale, [2.0; 3]);
    assert_eq!(recs[0].label.as_deref(), Some("base"));
    assert!((recs[0].color[0] - 1.0).abs() < 1e-3);
    assert_eq!(recs[1].color, [0.0, 1.0, 0.0]);
    assert_eq!(recs[2].scale, [4.0, 4.0, 1.0]);
    assert_eq!(recs[2].rotation, [0.0, 0.0, 45.0]);
    assert_eq!(recs[2].label.as_deref(), Some("floor tile"));
    assert_eq!(recs[3].scale, [POINT_SIZE; 3]);
    assert_eq!(recs[4].scale, [2.0; 3]);
}

#[test]
fn dsl_reports_line_numbers_on_errors() {
    let bad = "cube 0 0 0\nspherex 1 2 3";
    let err = parse_dsl(bad).unwrap_err();
    assert!(err.message().contains("line 2"));
    assert!(err.message().contains("spherex"));
    for bad in [
        "cube 0 zero 0",
        "cube 0 0",
        "cube 0 0 0 1 2",
        "cube 0 0 0 #nothex",
        "cube 0 0 0 rot=1,2",
        "cube 0 0 0 wrench=5",
        "cube 0 0 0 size=big",
    ] {
        assert!(parse_dsl(bad).is_err(), "{}", bad);
    }
}

#[test]
fn dsl_error_messages_name_the_problem() {
    assert_eq!(parse_dsl_record("").unwrap_err(), "empty record");
    assert_eq!(parse_dsl_record("cube 0 zero 0").unwrap_err(), "'zero' is not a coordinate");
    assert_eq!(parse_dsl_record("cube 0 0").unwrap_err(), "expected x y z after the shape");
    assert_eq!(parse_dsl_record("cube 0 0 0 1 2").unwrap_err(), "expected 1 or 3 scale values, found 2");
    assert_eq!(parse_dsl_record("cube 0 0 0 Wrench=5").unwrap_err(), "unknown option 'wrench'");
    assert_eq!(parse_dsl_record("cube 0 0 0 size=big").unwrap_err(), "bad size 'big'");
    assert_eq!(parse_dsl_record("cube 0 0 0 1,2").unwrap_err(), "bad color '1,2'");
    let r = parse_dsl_record("box 1 2 3 scale=1,2,3 NAME=a b").unwrap();
    assert_eq!(r.scale, vec!["1", "2", "3"]);
    assert_eq!(r.label.as_deref(), Some("a b"));
}

#[test]
fn color_parsing_accepts_hex_and_triples() {
    let parse_color = |t: &str| parse_color_text(t).map(|c| color_floats(&c));
    assert_eq!(parse_color("#ff0000"), Some([1.0, 0.0, 0.0]));
    assert_eq!(parse_color("#0f0"), Some([0.0, 1.0, 0.0]));
    let c = parse_color("0.2,0.4,0.8").unwrap();
    assert!((c[1] - 0.4).abs() < 1e-6);
    let c = parse_color("255, 0, 128").unwrap();
    assert_eq!(c[0], 1.0);
    assert!((c[2] - 128.0 / 255.0).abs() < 1e-6);
    assert_eq!(parse_color("#zzz"), None);
    assert_eq!(parse_color("1,2"), None);
    assert_eq!(parse_color("notacolor"), None);
}

#[test]
fn full_header_set_maps_every_field() {
    let t = table(
        &["Type", "x", "y", "z", "size", "rx", "ry", "rz", "color", "name"],
        &[&["cube", "1", "2", "3", "2.5", "0", "45", "0", "#ff0000", "boxy"]],
    );
    let recs: Vec<Rec> = t.to_records().unwrap().iter().map(rec).collect();
    assert_eq!(recs[0].shape, GeometryType::Cube);
    assert_eq!(recs[0].position, [1.0, 2.0, 3.0]);
    assert_eq!(recs[0].scale, [2.5; 3]);
    assert_eq!(recs[0].rotation, [0.0, 45.0, 0.0]);
    assert_eq!(recs[0].color, [1.0, 0.0, 0.0]);
    assert_eq!(recs[0].label.as_deref(), Some("boxy"));
}

#[test]
fn rgb_columns_and_per_axis_scale() {
    let t = table(
        &["shape", "x", "y", "z", "sx", "sy", "sz", "red", "green", "blue"],
        &[&["plane", "0", "0", "0", "4", "1", "2", "255", "0", "0"]],
    );
    let r = &t.to_records().unwrap().iter().map(rec).collect::<Vec<Rec>>()[0];
    assert_eq!(r.scale, [4.0, 1.0, 2.0]);
    assert_eq!(r.color, [1.0, 0.0, 0.0]);
}

#[test]
fn missing_shape_column_defaults_to_points() {
    let t = table(&["x", "y", "z"], &[&["1", "2", "3"], &["4", "5", "6"]]);
    let recs: Vec<Rec> = t.to_records().unwrap().iter().map(rec).collect();
    assert_eq!(recs.len(), 2);
    assert_eq!(recs[0].shape, GeometryType::Sphere);
    assert_eq!(recs[0].scale, [POINT_SIZE; 3]);
}

#[test]
fn errors_carry_row_numbers() {
    let t = table(&["shape", "x", "y", "z"], &[&["cube", "1", "oops", "3"]]);
    let err = t.to_records().unwrap_err();
    assert!(err.message().contains("line 2"));
    assert_eq!(err.message(), "line 2: 'oops' is not a number for y");

    let t = table(&["shape", "x", "y", "z"], &[&["pyramid", "1", "2", "3"]]);
    assert!(t.to_records().is_err());

    let t = table(&["a", "b"], &[]);
    let err = t.to_records().unwrap_err();
    assert!(err.message().contains("x, y and z"));
}

#[test]
fn xyz_detection_and_parsing() {
    let xyz = "1 2 3\n4,5,6,0.5\n# note\n7 8 9";
    assert!(looks_like_xyz(xyz));
    assert!(!looks_like_xyz("cube 0 0 0"));
    assert!(!looks_like_xyz(""));
    assert!(!looks_like_xyz("# only comments"));

    let recs: Vec<Rec> = parse_xyz(xyz).unwrap().iter().map(|r| rec_colored(r, [1.0, 0.0, 0.0])).collect();
    assert_eq!(recs.len(), 3);
    assert_eq!(recs[0].position, [1.0, 2.0, 3.0]);
    assert_eq!(recs[0].scale, [POINT_SIZE; 3]);
    assert_eq!(recs[1].scale, [0.5; 3]);
    assert_eq!(recs[2].color, [1.0, 0.0, 0.0]);

    assert!(parse_xyz("1 2").is_err());
    assert!(parse_xyz("1 2 x").is_err());
}

#[test]
fn auto_routes_between_formats() {
    let pts: Vec<Rec> = parse_auto("0 0 0\n1 1 1").unwrap().iter().map(rec).collect();
    assert_eq!(pts.len(), 2);
    assert_eq!(pts[0].shape, GeometryType::Sphere);

    let shapes: Vec<Rec> = parse_auto("cube 0 0 0").unwrap().iter().map(rec).collect();
    assert_eq!(shapes[0].shape, GeometryType::Cube);
}

#[test]
fn xyz_errors_name_the_field_and_the_count() {
    match parse_xyz("1 2 3\n4 5") {
        Err(GeometryError::Parse { line, message }) => {
            assert_eq!(line, 2);
            assert_eq!(message, "expected at least x y z, found 2 values");
        }
        other => panic!("unexpected {:?}", other.map(|v| v.len())),
    }
    match parse_xyz("1,2,three") {
        Err(GeometryError::Parse { line, message }) => {
            assert_eq!(line, 1);
            assert_eq!(message, "'three' is not a number");
        }
        other => panic!("unexpected {:?}", other.map(|v| v.len())),
    }
}

#[test]
fn xyz_fields_split_on_commas_and_space() {
    let fields: Vec<String> =
        split_fields(&" 1,, 2\t3 ,4 ".chars().collect()).iter().map(|f| f.iter().collect()).collect();
    assert_eq!(fields, vec!["1", "2", "3", "4"]);
    let r = parse_xyz_record("1 2 3 0.25 9").unwrap();
    assert_eq!(r.scale, vec!["0.25".to_string()]);
    assert!(r.is_point);
    assert!(r.rotation.is_empty());
}

#[test]
fn extensions_pick_the_reader() {
    assert_eq!(format_for_extension("CSV").unwrap(), GeometryFormat::Csv);
    assert_eq!(format_for_extension("xlsm").unwrap(), GeometryFormat::Excel);
    assert_eq!(format_for_extension("ods").unwrap(), GeometryFormat::Excel);
    assert_eq!(format_for_extension("Json").unwrap(), GeometryFormat::Json);
    assert_eq!(format_for_extension("xyz").unwrap(), GeometryFormat::Xyz);
    assert_eq!(format_for_extension("geo").unwrap(), GeometryFormat::Text);
    match format_for_extension("STL") {
        Err(GeometryError::Unsupported(m)) => {
            assert_eq!(m, "unknown geometry extension 'stl' (expected csv, xlsx, xls, ods, json, xyz, txt)")
        }
        other => panic!("unexpected {:?}", other.is_ok()),
    }
}

#[test]
fn json_is_recognised_after_leading_space() {
    assert!(looks_like_json("  \n[{\"shape\":\"cube\"}]"));
    assert!(looks_like_json("{}"));
    assert!(!looks_like_json("cube 0 0 0"));
    assert!(!looks_like_json("   "));
    assert!(!looks_like_json(""));
}

fn f(b: u64) -> f32 {
    f64::from_bits(b) as f32
}

fn json_rec(r: &JsonRecord) -> Rec {
    let three = |v: &Vec<u64>| [f(v[0]), f(v[1]), f(v[2])];
    let rgb = |c: [f32; 3]| if c.iter().any(|x| *x > 1.0) { [c[0] / 255.0, c[1] / 255.0, c[2] / 255.0] } else { c };
    Rec {
        shape: r.shape,
        position: three(&r.position),
        rotation: if r.rotation.len() == 3 { three(&r.rotation) } else { [0.0; 3] },
        scale: match r.scale.len() {
            0 => [if r.is_point { POINT_SIZE } else { 1.0 }; 3],
            1 => [f(r.scale[0]); 3],
            _ => three(&r.scale),
        },
        color: match &r.color {
            Some(JsonColor::Token(c)) => color_floats(c),
            Some(JsonColor::Rgb(v)) => rgb(three(v)),
            None => DEFAULT_COLOR,
        },
        label: r.label.clone(),
    }
}

fn parse_json(text: &str) -> Result<Vec<Rec>, GeometryError> {
    Ok(json_records(text)?.iter().map(json_rec).collect())
}

#[test]
fn array_and_wrapped_forms_parse() {
    let arr = r##"[{"shape":"cube","pos":[1,2,3],"size":2,"color":"#ff0000","label":"a"}]"##;
    let recs = parse_json(arr).unwrap();
    assert_eq!(recs[0].shape, GeometryType::Cube);
    assert_eq!(recs[0].position, [1.0, 2.0, 3.0]);
    assert_eq!(recs[0].scale, [2.0; 3]);
    assert_eq!(recs[0].color, [1.0, 0.0, 0.0]);
    assert_eq!(recs[0].label.as_deref(), Some("a"));

    let wrapped = r#"{"geometries":[{"type":"plane","x":1,"y":0,"z":0,
        "scale":[4,4,1],"rotation":[0,0,90],"color":[255,128,0],"name":"floor"}]}"#;
    let recs = parse_json(wrapped).unwrap();
    assert_eq!(recs[0].shape, GeometryType::Plane);
    assert_eq!(recs[0].scale, [4.0, 4.0, 1.0]);
    assert_eq!(recs[0].rotation, [0.0, 0.0, 90.0]);
    assert_eq!(recs[0].color[0], 1.0);
}

#[test]
fn shapeless_entries_become_points() {
    let recs = parse_json(r#"[{"x":1,"y":2,"z":3}]"#).unwrap();
    assert_eq!(recs[0].shape, GeometryType::Sphere);
    assert_eq!(recs[0].scale, [POINT_SIZE; 3]);
}

#[test]
fn malformed_documents_report_clear_errors() {
    assert!(parse_json("not json").is_err());
    assert!(parse_json("42").is_err());
    assert!(parse_json(r#"{"other": []}"#).is_err());
    assert!(parse_json("[42]").is_err());
    assert!(parse_json(r#"[{"shape":"cube"}]"#).is_err());
    assert!(parse_json(r#"[{"shape":"hex","pos":[0,0,0]}]"#).is_err());
    assert!(parse_json(r#"[{"pos":[1,2],"shape":"cube"}]"#).is_err());
    let err = parse_json(r##"[{"shape":"cube","pos":[0,0,0],"color":"#xx"}]"##).unwrap_err();
    assert!(err.message().contains("line 1"));
}

#[test]
fn json_errors_carry_messages_and_entry_numbers() {
    let msg = |text: &str| parse_json(text).err().map(|e| e.message()).unwrap();
    assert!(msg("not json").starts_with("format error: invalid JSON: "));
    assert_eq!(msg("42"), "format error: expected a JSON array of geometry objects");
    assert_eq!(
        msg(r#"{"geometries": 3, "other": []}"#),
        "format error: expected a JSON array or an object with a 'geometries' array"
    );
    assert_eq!(msg(r#"[{"x":0,"y":0,"z":0}, 7]"#), "line 2: geometry entry is not an object");
    assert_eq!(msg(r#"[{"shape":"hex","pos":[0,0,0]}]"#), "line 1: unknown shape 'hex'");
    assert_eq!(msg(r#"[{"pos":[1,2]}]"#), "line 1: 'pos' must be an array of 3 numbers");
    assert_eq!(msg(r#"[{"x":1,"y":2}]"#), "line 1: missing position ('pos' array or x/y/z fields)");
    assert_eq!(msg(r#"[{"x":1,"y":2,"z":3,"size":"big"}]"#), "line 1: 'scale' must be a number or [sx, sy, sz]");
    assert_eq!(msg(r#"[{"x":1,"y":2,"z":3,"rot":[1]}]"#), "line 1: 'rotation' must be [rx, ry, rz] degrees");
    assert_eq!(msg(r#"[{"x":1,"y":2,"z":3,"colour":true}]"#), "line 1: 'color' must be \"#hex\" or [r, g, b]");
    assert_eq!(msg(r##"[{"x":1,"y":2,"z":3,"color":"#xx"}]"##), "line 1: bad color '#xx'");
    // `objects` is used when `geometries` is not an array; `pos` wins over x/y/z.
    let recs = parse_json(r#"{"geometries":1,"objects":[{"pos":[1,1,1],"x":9,"y":9,"z":9,"radius":0.5}]}"#).unwrap();
    assert_eq!(recs[0].position, [1.0, 1.0, 1.0]);
    assert_eq!(recs[0].scale, [0.5; 3]);
}

#[test]
fn string_loader_routes_json_dsl_and_xyz() {
    let json = load_string(r#"[{"shape":"cube","pos":[0,0,0]}]"#).unwrap();
    assert!(matches!(json, TextImport::Json(_)));
    assert_eq!(json.count(), 1);
    let dsl = load_string("sphere 1 1 1 0.5").unwrap();
    assert_eq!(dsl.count(), 1);
    let xyz = load_string("1 2 3\n4 5 6").unwrap();
    assert!(matches!(xyz, TextImport::Plain(_)));
    assert_eq!(xyz.count(), 2);
}

#[test]
fn empty_inputs_are_rejected_with_a_message() {
    let err = require_records(load_string("# nothing here").unwrap()).unwrap_err();
    assert!(err.message().contains("no geometries"));
}

#[test]
fn batches_group_by_shape_and_skip_hidden_layers() {
    let cubes = (true, vec![GeometryType::Cube, GeometryType::Cube]);
    let mixed = (true, vec![GeometryType::Sphere, GeometryType::Cube]);
    let hidden = (false, vec![GeometryType::Plane]);
    let batches = build_batches(&vec![cubes, mixed, hidden]);
    assert_eq!(batches.len(), 2);
    let cubes = batches.iter().find(|(g, _)| *g == GeometryType::Cube).unwrap();
    assert_eq!(cubes.1.len(), 3);
    let spheres = batches.iter().find(|(g, _)| *g == GeometryType::Sphere).unwrap();
    assert_eq!(spheres.1.len(), 1);
    assert!(!batches.iter().any(|(g, _)| *g == GeometryType::Plane));
    assert_eq!(batches[0], (GeometryType::Cube, vec![(0, 0), (0, 1), (1, 1)]));
    assert_eq!(batches[1], (GeometryType::Sphere, vec![(1, 0)]));
}

#[test]
fn model_extensions_pick_a_reader_or_explain_why_not() {
    assert_eq!(mesh_format("STL"), Ok(MeshFormat::Stl));
    assert_eq!(mesh_format("obj"), Ok(MeshFormat::Obj));
    assert_eq!(mesh_format("glb"), Ok(MeshFormat::Gltf));
    assert_eq!(mesh_format("stp"), Err("STEP import is not supported yet (no tessellation backend)".to_string()));
    assert_eq!(mesh_format("PLY"), Err("unsupported 3D model format 'ply' (expected stl, obj, gltf or glb)".to_string()));
}

#[test]
fn merged_parts_shift_their_indices() {
    let mut idx = vec![0, 1, 2];
    assert!(part_fits(&[0, 1, 2], 3));
    append_offset(&mut idx, &[0, 2, 1], 3);
    assert_eq!(idx, vec![0, 1, 2, 3, 5, 4]);
    assert!(!part_fits(&[1], u32::MAX));
}

#[test]
fn double_sided_surfaces_reverse_the_back_copy() {
    let idx = double_sided(&[0, 1, 2, 0, 2, 3], 4);
    assert_eq!(idx, vec![0, 1, 2, 0, 2, 3, 4, 6, 5, 4, 7, 6]);
    assert_eq!(double_sided(&[0, 1], 2), Vec::<u32>::new());
}
