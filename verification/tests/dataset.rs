use render3d::dataset::source::{dataset_format, idx_labels_name, DatasetFormat};
use render3d::dataset::table::table_features;
use std::collections::HashSet;

use render3d::dataset::builtin::BuiltinDataset;
use render3d::dataset::cache::{cache_key_spec, decode_projection_cache, encode_projection_cache};
use render3d::dataset::index::{CmpOp, DatasetIndex, FilterSpec, SearchQuery};
use render3d::dataset::labels::labels_from_strings;
use render3d::dataset::loader::{
    detect_label_column, extract_shape, npy_array_name, npz_entries, parse_descr, parse_idx_header, parse_npy_header,
    payload_covers, shape_to_2d,
};
use render3d::dataset::preprocessor::{estimation_rows, pca_plan, PcaPlan, ProjectionMethod, ProjectionSpec};
use render3d::dataset::{fnv1a64, DatasetError, ElemType};

#[test]
fn names_round_trip_through_default_of() {
    for name in BuiltinDataset::ALL_NAMES.iter().chain(BuiltinDataset::CAE_NAMES.iter()) {
        let kind = BuiltinDataset::default_of(name).unwrap();
        assert_eq!(kind.name(), *name);
    }
    assert!(BuiltinDataset::default_of("missing").is_none());
}

#[test]
fn rows_for_labels_ignores_unknown_ids() {
    let idx = DatasetIndex::build(&[0, 1, 0], 2);
    let rows = idx.rows_for_labels(&HashSet::from([1, 99]));
    assert_eq!(rows, vec![1]);
    assert_eq!(idx.count(99), 0);
}

#[test]
fn descr_parsing_covers_all_supported_dtypes() {
    for (descr, elem) in [
        ("<f4", ElemType::F32),
        ("<f8", ElemType::F64),
        ("|i1", ElemType::I8),
        ("|u1", ElemType::U8),
        ("<i2", ElemType::I16),
        ("<u2", ElemType::U16),
        ("<i4", ElemType::I32),
        ("<u4", ElemType::U32),
        ("<i8", ElemType::I64),
        ("<u8", ElemType::U64),
        ("=f4", ElemType::F32),
        ("f4", ElemType::F32),
    ] {
        assert_eq!(parse_descr(descr).unwrap(), elem, "descr {}", descr);
    }
}

#[test]
fn descr_rejects_big_endian_strings_and_unknowns() {
    assert!(parse_descr(">f4").is_err());
    assert!(parse_descr("<U16").is_err());
    assert!(parse_descr("").is_err());
}

#[test]
fn shape_extraction_handles_tuples() {
    let h = "{'descr': '<f4', 'fortran_order': False, 'shape': (3, 4), }";
    assert_eq!(extract_shape(h).unwrap(), vec![3, 4]);
    let h1 = "{'descr': '<f4', 'fortran_order': False, 'shape': (7,), }";
    assert_eq!(extract_shape(h1).unwrap(), vec![7]);
    let h3 = "{'shape': (2, 3, 4)}";
    assert_eq!(extract_shape(h3).unwrap(), vec![2, 3, 4]);
    assert!(extract_shape("{'shape': (a,)}").is_err());
    assert!(extract_shape("{'no_shape': 1}").is_err());
}

#[test]
fn shape_to_2d_folds_trailing_dims() {
    assert_eq!(shape_to_2d(&[10]).unwrap(), (10, 1));
    assert_eq!(shape_to_2d(&[10, 4]).unwrap(), (10, 4));
    assert_eq!(shape_to_2d(&[10, 2, 3]).unwrap(), (10, 6));
    assert!(shape_to_2d(&[]).is_err());
}

#[test]
fn npy_header_rejects_bad_magic_and_version() {
    assert!(parse_npy_header(b"NOPE").is_err());
    let mut bad_ver = b"\x93NUMPY".to_vec();
    bad_ver.extend_from_slice(&[9, 0, 0, 0]);
    assert!(parse_npy_header(&bad_ver).is_err());
}

#[test]
fn label_detection_prefers_strong_names_over_y() {
    let h = |v: &[&str]| v.iter().map(|s| s.to_string()).collect::<Vec<_>>();
    assert_eq!(detect_label_column(&h(&["a", "y", "b"])), Some(1));
    assert_eq!(detect_label_column(&h(&["x", "y", "label"])), Some(2));
    assert_eq!(detect_label_column(&h(&["y", "TARGET"])), Some(1));
    assert_eq!(detect_label_column(&h(&["Species", "y"])), Some(0));
    assert_eq!(detect_label_column(&h(&["a", "b"])), None);
}

#[test]
fn idx_header_parsing_and_rejections() {
    let mut buf = vec![0u8, 0, 0x08, 2];
    buf.extend_from_slice(&3u32.to_be_bytes());
    buf.extend_from_slice(&2u32.to_be_bytes());
    buf.extend_from_slice(&[1, 2, 3, 4, 5, 6]);
    let (elem, dims, off) = parse_idx_header(&buf).unwrap();
    assert_eq!(elem, ElemType::U8);
    assert_eq!(dims, vec![3, 2]);
    assert_eq!(off, 12);

    assert!(parse_idx_header(&[1, 2, 3, 4]).is_err());
    assert!(parse_idx_header(&[0, 0, 0xFF, 1, 0, 0, 0, 1]).is_err());
    assert!(parse_idx_header(&[0, 0, 0x0D, 1, 0, 0, 0, 1]).is_err());
    assert!(parse_idx_header(&[0, 0, 0x08, 2, 0, 0]).is_err());
}

#[test]
fn elem_type_sizes() {
    assert_eq!(ElemType::I8.size(), 1);
    assert_eq!(ElemType::U8.size(), 1);
    assert_eq!(ElemType::I16.size(), 2);
    assert_eq!(ElemType::U16.size(), 2);
    assert_eq!(ElemType::F32.size(), 4);
    assert_eq!(ElemType::I32.size(), 4);
    assert_eq!(ElemType::U32.size(), 4);
    assert_eq!(ElemType::F64.size(), 8);
    assert_eq!(ElemType::I64.size(), 8);
    assert_eq!(ElemType::U64.size(), 8);
}

#[test]
fn fnv1a64_is_stable_and_order_sensitive() {
    let a = fnv1a64(&[b"hello", b"world"]);
    assert_eq!(a, fnv1a64(&[b"hello", b"world"]));
    assert_ne!(a, fnv1a64(&[b"world", b"hello"]));
    assert_ne!(a, fnv1a64(&[b"helloworldX"]));
    assert_eq!(a, fnv1a64(&[b"helloworld"]));
}

#[test]
fn error_display_variants() {
    let io = DatasetError::Io(std::io::Error::other("boom").to_string());
    assert!(io.message().contains("I/O error"));
    assert!(DatasetError::Format("x".into()).message().contains("format error"));
    assert!(DatasetError::Unsupported("y".into()).message().contains("unsupported"));
    assert!(DatasetError::InvalidQuery("z".into()).message().contains("invalid query"));
}

#[test]
fn method_tags_are_distinct() {
    assert_eq!(ProjectionMethod::Pca.tag(), "pca");
    assert_eq!(ProjectionMethod::Direct.tag(), "direct");
}

#[test]
fn spec_tags_are_unique_per_config() {
    let a = ProjectionSpec {
        method: ProjectionMethod::Direct,
        dims: 2,
        axes: [0, 3, 2],
    };
    let b = ProjectionSpec {
        method: ProjectionMethod::Direct,
        dims: 2,
        axes: [0, 1, 2],
    };
    assert_ne!(a.tag(), b.tag());
    assert_eq!(ProjectionSpec::full(ProjectionMethod::Pca).tag(), "pca-3");
}

use render3d::dataset::builtin::Rng;
use render3d::dataset::export::{csv_header, escape_csv};
use render3d::dataset::loader::{
    extract_py_str, file_stem, int_names, label_vocabulary, resolve_columns, unlabeled,
};
use render3d::dataset::metadata::DatasetMetadata;

fn npy_with_header(dict: &str, payload: &[u8]) -> Vec<u8> {
    let mut header = dict.to_string();
    header.push('\n');
    let mut out = Vec::new();
    out.extend_from_slice(b"\x93NUMPY");
    out.push(1);
    out.push(0);
    out.extend_from_slice(&(header.len() as u16).to_le_bytes());
    out.extend_from_slice(header.as_bytes());
    out.extend_from_slice(payload);
    out
}

#[test]
fn npy_header_version_2_uses_u32_length() {
    let dict = "{'descr': '<f4', 'fortran_order': False, 'shape': (1, 1), }\n";
    let mut out = Vec::new();
    out.extend_from_slice(b"\x93NUMPY");
    out.push(2);
    out.push(0);
    out.extend_from_slice(&(dict.len() as u32).to_le_bytes());
    out.extend_from_slice(dict.as_bytes());
    out.extend_from_slice(&1.0f32.to_le_bytes());
    let h = parse_npy_header(&out).unwrap();
    assert_eq!(h.elem, ElemType::F32);
    assert_eq!(h.shape, vec![1, 1]);
    assert_eq!(h.data_offset, 12 + dict.len());
}

#[test]
fn npy_header_detects_fortran_order() {
    let buf = npy_with_header(
        "{'descr': '<f4', 'fortran_order': True, 'shape': (1, 1), }",
        &1.0f32.to_le_bytes(),
    );
    assert!(parse_npy_header(&buf).unwrap().fortran_order);
    let buf2 = npy_with_header(
        "{'descr': '<f4', 'fortran_order': False, 'shape': (1, 1), }",
        &1.0f32.to_le_bytes(),
    );
    assert!(!parse_npy_header(&buf2).unwrap().fortran_order);
}

#[test]
fn labels_from_numeric_builds_sorted_vocabulary() {
    let values: Vec<i64> = [5.0f32, -1.0, 5.0, 2.0].iter().map(|v| *v as i64).collect();
    let (ids, vocab) = label_vocabulary(&values);
    let names = int_names(&vocab);
    assert_eq!(names, vec!["-1", "2", "5"]);
    assert_eq!(ids, vec![2, 0, 2, 1]);
}

#[test]
fn npy_version_1_header_offset_and_descr() {
    let buf = npy_with_header("{'descr': '|u1', 'fortran_order': False, 'shape': (2, 3), }", &[0; 6]);
    let h = parse_npy_header(&buf).unwrap();
    assert_eq!(h.elem, ElemType::U8);
    assert_eq!(h.shape, vec![2, 3]);
    assert_eq!(h.data_offset, buf.len() - 6);
    assert!(parse_npy_header(&buf[..9]).is_err());
}

#[test]
fn py_strings_are_extracted_by_key() {
    let h = "{'descr': '<f4', 'fortran_order': False, 'shape': (3,), }";
    assert_eq!(extract_py_str(h, "descr"), Some("<f4".to_string()));
    assert_eq!(extract_py_str(h, "missing"), None);
}

#[test]
fn unlabeled_rows_share_one_class() {
    let (ids, names, col) = unlabeled(3);
    assert_eq!(ids, vec![0, 0, 0]);
    assert_eq!(names, vec!["unlabeled".to_string()]);
    assert_eq!(col, None);
}

#[test]
fn file_stems_drop_directories_and_extension() {
    assert_eq!(file_stem("/data/iris.csv"), "iris");
    assert_eq!(file_stem("archive.tar.gz"), "archive.tar");
    assert_eq!(file_stem(".hidden"), ".hidden");
    assert_eq!(file_stem(""), "dataset");
}

#[test]
fn columns_resolve_around_the_label() {
    let h: Vec<String> = ["a", "Label", "b"].iter().map(|s| s.to_string()).collect();
    assert_eq!(resolve_columns(&h, &None, "CSV").unwrap(), (Some(1), vec![0, 2]));
    assert_eq!(resolve_columns(&h, &Some("A".to_string()), "CSV").unwrap(), (Some(0), vec![1, 2]));
    match resolve_columns(&h, &Some("zzz".to_string()), "CSV") {
        Err(DatasetError::Format(m)) => assert_eq!(m, "label column 'zzz' not found"),
        other => panic!("unexpected {:?}", other.is_ok()),
    }
    let only: Vec<String> = vec!["label".to_string()];
    match resolve_columns(&only, &None, "sheet") {
        Err(DatasetError::Format(m)) => assert_eq!(m, "sheet has no feature columns"),
        other => panic!("unexpected {:?}", other.is_ok()),
    }
    let plain: Vec<String> = vec!["p".to_string(), "q".to_string()];
    assert_eq!(resolve_columns(&plain, &None, "CSV").unwrap(), (None, vec![0, 1]));
}

#[test]
fn csv_fields_are_quoted_only_when_needed() {
    assert_eq!(escape_csv("plain"), "plain");
    assert_eq!(escape_csv("a,b"), "\"a,b\"");
    assert_eq!(escape_csv("say \"hi\""), "\"say \"\"hi\"\"\"");
    assert_eq!(escape_csv("two\nlines"), "\"two\nlines\"");
    let cols = vec!["x".to_string(), "y,z".to_string()];
    assert_eq!(csv_header(&cols), "x,y,z,label\n");
}

#[test]
fn metadata_names_columns_and_counts_labels() {
    let mut m = DatasetMetadata::new("iris", "csv", 4, 3);
    assert_eq!(m.column_names, vec!["f0", "f1", "f2"]);
    assert_eq!(m.name, "iris");
    assert!(m.labels.is_empty());
    m.set_label_stats(&[1, 0, 1, 1], &["a".to_string(), "b".to_string()]);
    assert_eq!(m.labels.len(), 2);
    assert_eq!((m.labels[0].name.as_str(), m.labels[0].count), ("a", 1));
    assert_eq!((m.labels[1].name.as_str(), m.labels[1].count), ("b", 3));
}

#[test]
fn rng_is_deterministic_and_never_zero() {
    let mut a = Rng::new(123);
    let mut b = Rng::new(123);
    for _ in 0..100 {
        let v = a.next_u64();
        assert_eq!(v, b.next_u64());
        assert_ne!(v, 0);
        let f = (v >> 40) as f32 / (1u64 << 24) as f32;
        assert!((0.0..1.0).contains(&f));
    }
    let mut z = Rng::new(0);
    assert_ne!(z.next_u64(), 0);
}

#[test]
fn selection_returns_each_enabled_row_once_in_order() {
    let labels = [2u32, 0, 1, 2, 0, 2];
    let idx = DatasetIndex::build(&labels, 3);
    assert_eq!(idx.count(2), 3);
    assert_eq!(idx.rows_for_labels(&HashSet::from([0, 2])), vec![0, 1, 3, 4, 5]);
    assert_eq!(idx.rows_for_labels(&HashSet::new()), Vec::<u32>::new());
    assert_eq!(idx.label_rows[1], vec![2]);
}

#[test]
fn projection_specs_clamp_dims_and_tag_axes() {
    let s = ProjectionSpec { method: ProjectionMethod::Direct, dims: 9, axes: [4, 5, 6] };
    assert_eq!(s.dims(), 3);
    let one = ProjectionSpec { method: ProjectionMethod::Pca, dims: 0, axes: [0, 1, 2] };
    assert_eq!(one.dims(), 1);
    assert_eq!(one.tag(), "pca-1");
    assert_eq!(ProjectionSpec::default(), ProjectionSpec::full(ProjectionMethod::Pca));
}

#[test]
fn text_labels_get_a_sorted_vocabulary() {
    let values: Vec<String> = ["setosa", "virginica", "setosa", "Setosa", "é", ""].iter().map(|s| s.to_string()).collect();
    let (ids, names) = labels_from_strings(&values);
    assert_eq!(names, vec!["", "Setosa", "setosa", "virginica", "é"]);
    assert_eq!(ids, vec![2, 3, 2, 1, 4, 0]);
    let mut sorted = values.clone();
    sorted.sort();
    sorted.dedup();
    assert_eq!(names, sorted);
}

#[test]
fn malformed_column_queries_fall_back_to_substring() {
    assert!(matches!(SearchQuery::parse("cat > dog").unwrap(), SearchQuery::LabelSubstring(_)));
    assert!(matches!(SearchQuery::parse("c > 1").unwrap(), SearchQuery::LabelSubstring(_)));
    assert!(matches!(
        SearchQuery::parse("C2 <= 0.5").unwrap(),
        SearchQuery::Column { col: 2, op: CmpOp::Le, .. }
    ));
}

#[test]
fn needs_features_only_for_column_queries() {
    assert!(SearchQuery::parse("c0 > 1").unwrap().needs_features());
    assert!(!SearchQuery::parse("row:1").unwrap().needs_features());
    assert!(!SearchQuery::parse("abc").unwrap().needs_features());
    assert!(!SearchQuery::All.needs_features());
}

#[test]
fn queries_parse_rows_columns_and_labels() {
    assert_eq!(SearchQuery::parse("   ").unwrap(), SearchQuery::All);
    assert_eq!(SearchQuery::parse(" row: 42 ").unwrap(), SearchQuery::Row(42));
    assert_eq!(
        SearchQuery::parse("c3 != -1.5e2").unwrap(),
        SearchQuery::Column { col: 3, op: CmpOp::Ne, value: "-1.5e2".to_string() }
    );
    assert_eq!(
        SearchQuery::parse("c1>=2").unwrap(),
        SearchQuery::Column { col: 1, op: CmpOp::Ge, value: "2".to_string() }
    );
    assert_eq!(SearchQuery::parse("Setosa").unwrap(), SearchQuery::LabelSubstring("setosa".to_string()));
    assert_eq!(SearchQuery::parse("ROW:1").unwrap(), SearchQuery::Row(1));
    match SearchQuery::parse("row: x") {
        Err(DatasetError::InvalidQuery(m)) => assert_eq!(m, "bad row number ' x'"),
        other => panic!("unexpected {:?}", other),
    }
    assert!(SearchQuery::parse("row:4294967296").is_err());
}

#[test]
fn all_labels_filter_enables_every_id() {
    let f = FilterSpec::all_labels(3);
    assert_eq!(f.enabled_labels, HashSet::from([0, 1, 2]));
    assert_eq!(f.query, SearchQuery::All);
}

#[test]
fn projection_cache_bytes_round_trip() {
    let points: Vec<[u32; 3]> =
        vec![[1.5f32, -2.5, 3.25], [0.0, 0.5, -0.5]].iter().map(|p| p.map(f32::to_bits)).collect();
    let bytes = encode_projection_cache(&points);
    assert_eq!(bytes.len(), 8 + 2 * 12);
    assert_eq!(&bytes[..8], &2u64.to_le_bytes());
    assert_eq!(&bytes[8..12], &1.5f32.to_le_bytes());
    assert_eq!(decode_projection_cache(&bytes, 2).unwrap(), points);
}

#[test]
fn projection_cache_rejects_corrupt_bytes() {
    match decode_projection_cache(&[1, 2, 3], 1) {
        Err(DatasetError::Format(m)) => assert_eq!(m, "projection cache too small"),
        other => panic!("unexpected {:?}", other),
    }
    let mut bytes = encode_projection_cache(&[[1.0f32.to_bits(), 2.0f32.to_bits(), 3.0f32.to_bits()]]);
    assert!(decode_projection_cache(&bytes, 2).is_err());
    bytes.pop();
    match decode_projection_cache(&bytes, 1) {
        Err(DatasetError::Format(m)) => assert_eq!(m, "projection cache shape mismatch"),
        other => panic!("unexpected {:?}", other),
    }
}

#[test]
fn cache_keys_change_with_every_input() {
    let spec = ProjectionSpec::full(ProjectionMethod::Pca);
    let k = cache_key_spec("/d/a.csv", "a", 10, 20, 3, 4, &spec);
    assert_eq!(k, cache_key_spec("/d/a.csv", "a", 10, 20, 3, 4, &spec));
    assert_ne!(k, cache_key_spec("/d/a.csv", "a", 10, 21, 3, 4, &spec));
    assert_ne!(k, cache_key_spec("/d/a.csv", "a", 10, 20, 3, 4, &ProjectionSpec::full(ProjectionMethod::Direct)));
    let mut parts: Vec<u8> = Vec::new();
    parts.extend_from_slice(b"/d/a.csv");
    parts.extend_from_slice(b"a");
    for v in [10u64, 20, 3, 4] {
        parts.extend_from_slice(&v.to_le_bytes());
    }
    parts.extend_from_slice(b"pca-3");
    assert_eq!(k, fnv1a64(&[&parts]));
}

fn strings(v: &[&str]) -> Vec<String> {
    v.iter().map(|s| s.to_string()).collect()
}

#[test]
fn table_features_check_cells_and_keep_labels() {
    let headers = strings(&["a", "b", "label"]);
    let rows = vec![strings(&[" 1", "2.5 ", "cat"]), strings(&["3", "-4e2", " dog "])];
    let (cells, labels) = table_features(&headers, &rows, &vec![0, 1], Some(2), None, false).unwrap();
    assert_eq!(cells, strings(&["1", "2.5", "3", "-4e2"]));
    assert_eq!(labels, strings(&["cat", "dog"]));
}

#[test]
fn table_features_name_the_bad_cell() {
    let headers = strings(&["x", "y"]);
    let rows = vec![strings(&["1", "2"]), strings(&["3", "oops"])];
    match table_features(&headers, &rows, &vec![0, 1], None, None, false) {
        Err(DatasetError::Format(m)) => assert_eq!(m, "row 2: non numeric value 'oops' in column 'y'"),
        other => panic!("unexpected {:?}", other.is_ok()),
    }
    // A missing cell reads as empty, which is not a number.
    match table_features(&headers, &vec![strings(&["1"])], &vec![0, 1], None, None, false) {
        Err(DatasetError::Format(m)) => assert_eq!(m, "row 1: non numeric value '' in column 'y'"),
        other => panic!("unexpected {:?}", other.is_ok()),
    }
}

#[test]
fn table_features_cap_and_skip_blank_rows() {
    let headers = strings(&["x"]);
    let rows = vec![strings(&["1"]), strings(&[""]), strings(&["2"]), strings(&["bad"])];
    // Blank rows do not count; the cap stops before the bad row.
    let (cells, labels) = table_features(&headers, &rows, &vec![0], None, Some(2), true).unwrap();
    assert_eq!(cells, strings(&["1", "2"]));
    assert!(labels.is_empty());
    // Without skipping, the blank row is a non-numeric row 2.
    match table_features(&headers, &rows, &vec![0], None, Some(2), false) {
        Err(DatasetError::Format(m)) => assert_eq!(m, "row 2: non numeric value '' in column 'x'"),
        other => panic!("unexpected {:?}", other.is_ok()),
    }
    assert!(table_features(&headers, &rows, &vec![0], None, Some(0), false).unwrap().0.is_empty());
}

#[test]
fn dataset_extensions_pick_the_reader() {
    assert_eq!(dataset_format("NPY").unwrap(), DatasetFormat::Npy);
    assert_eq!(dataset_format("npz").unwrap(), DatasetFormat::Npz);
    assert_eq!(dataset_format("ods").unwrap(), DatasetFormat::Excel);
    assert_eq!(dataset_format("idx3-ubyte").unwrap(), DatasetFormat::Idx);
    match dataset_format("Parquet") {
        Err(DatasetError::Unsupported(m)) => {
            assert_eq!(m, "parquet support not compiled in (enable feature `parquet-support`)")
        }
        other => panic!("unexpected {:?}", other.is_ok()),
    }
    match dataset_format("bin") {
        Err(DatasetError::Unsupported(m)) => assert_eq!(m, "unknown dataset extension 'bin'"),
        other => panic!("unexpected {:?}", other.is_ok()),
    }
}

#[test]
fn idx_images_pair_with_labels() {
    assert_eq!(idx_labels_name("train-images-idx3-ubyte").as_deref(), Some("train-labels-idx1-ubyte"));
    assert_eq!(idx_labels_name("images-images.idx3").as_deref(), Some("labels-labels.idx1"));
    assert_eq!(idx_labels_name("t10k-labels-idx1-ubyte"), None);
}

#[test]
fn row_prefix_is_case_insensitive() {
    assert_eq!(SearchQuery::parse("ROW:5").unwrap(), SearchQuery::Row(5));
    assert_eq!(SearchQuery::parse("  Row: 7 ").unwrap(), SearchQuery::Row(7));
    assert!(matches!(SearchQuery::parse("RoW:x"), Err(DatasetError::InvalidQuery(_))));
}

#[test]
fn row_and_label_queries_decide_without_features() {
    let all = SearchQuery::parse("").unwrap();
    assert_eq!(all.matches_row(7, "cat"), Some(true));
    let row = SearchQuery::parse("row: 3").unwrap();
    assert_eq!(row.matches_row(3, "cat"), Some(true));
    assert_eq!(row.matches_row(4, "cat"), Some(false));
    let label = SearchQuery::parse("Ca").unwrap();
    assert_eq!(label.matches_row(0, "Big CAT"), Some(true));
    assert_eq!(label.matches_row(0, "dog"), Some(false));
    let column = SearchQuery::parse("c0 > 0.5").unwrap();
    assert_eq!(column.matches_row(0, "cat"), None);
}

#[test]
fn npz_entries_pick_label_and_feature_arrays_by_name() {
    let names: Vec<String> = ["Y_train.npy", "x.npy", "labels.npy", "extra.npy"].iter().map(|s| s.to_string()).collect();
    assert_eq!(npz_entries(&names), (Some(1), Some(0)));
    let only_labels: Vec<String> = vec!["target.npy".to_string()];
    assert_eq!(npz_entries(&only_labels), (None, Some(0)));
    assert_eq!(npz_entries(&[]), (None, None));
    assert_eq!(npy_array_name("y_test.npy.npy"), "y_test");
    assert_eq!(npy_array_name("data.NPY"), "data.NPY");
}

#[test]
fn payload_cover_counts_element_bytes_after_the_offset() {
    assert!(payload_covers(128 + 12, 128, 3, ElemType::F32));
    assert!(!payload_covers(128 + 11, 128, 3, ElemType::F32));
    assert!(!payload_covers(10, 128, 0, ElemType::U8));
    assert!(payload_covers(usize::MAX, 0, usize::MAX / 8, ElemType::F64));
}

#[test]
fn pca_plan_clamps_components_and_refuses_wide_data() {
    assert_eq!(pca_plan(0, 10, 3), Ok(PcaPlan::NoRows));
    assert_eq!(pca_plan(5, 2, 3), Ok(PcaPlan::Direct(3)));
    assert_eq!(pca_plan(5, 10, 0), Ok(PcaPlan::Reduce(1)));
    assert_eq!(pca_plan(5, 10, 9), Ok(PcaPlan::Reduce(3)));
    match pca_plan(5, 5000, 3) {
        Err(DatasetError::Unsupported(m)) => assert_eq!(m, "PCA limited to 4096 dimensions (dataset has 5000)"),
        other => panic!("unexpected {:?}", other),
    }
    let rows = estimation_rows(12_000);
    assert_eq!(rows.len(), 5000);
    assert_eq!(rows[1], 2);
    assert_eq!(estimation_rows(3), vec![0, 1, 2]);
}
