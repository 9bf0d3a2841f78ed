use render3d::dataset::stream::json_row::parse_row_line;
use render3d::dataset::stream::ndjson::{Frame, NdjsonDecoder};
use render3d::dataset::DatasetError;

/// Feed `text` in pieces of `step` bytes and collect every framed line.
fn collect_lines(text: &str, step: usize) -> Vec<String> {
    let bytes = text.as_bytes();
    let mut d = NdjsonDecoder::new();
    let mut pos = 0;
    let mut out = Vec::new();
    loop {
        match d.next_frame() {
            Frame::Line(l) => out.push(String::from_utf8(l).unwrap()),
            Frame::NeedMore => {
                if pos >= bytes.len() {
                    d.mark_eof();
                } else {
                    let end = (pos + step).min(bytes.len());
                    d.push_bytes(&bytes[pos..end]);
                    pos = end;
                }
            }
            Frame::End => break,
        }
    }
    out
}

/// A decoded row: its values (narrowed to `f32`) and labels.
struct Batch {
    rows: Vec<f32>,
    labels: Vec<String>,
}

/// Feed `text` in pieces of `step` bytes and decode every row, stopping at
/// the first error.
fn collect(text: &str, step: usize) -> Result<Vec<Batch>, DatasetError> {
    let mut out = Vec::new();
    for line in collect_lines(text, step) {
        if let Some(r) = parse_row_line(line.as_bytes())? {
            out.push(Batch {
                rows: r.values.iter().map(|&b| f64::from_bits(b) as f32).collect(),
                labels: r.label.into_iter().collect(),
            });
        }
    }
    Ok(out)
}

#[test]
fn decodes_multiple_lines() {
    let text = "{\"x\":[1,2],\"label\":\"a\"}\n[3,4]\n";
    let batches = collect(text, 16 * 1024).unwrap();
    assert_eq!(batches.len(), 2);
    assert_eq!(batches[0].rows, vec![1.0, 2.0]);
    assert_eq!(batches[0].labels, vec!["a".to_string()]);
    assert_eq!(batches[1].rows, vec![3.0, 4.0]);
    assert!(batches[1].labels.is_empty());
}

#[test]
fn reassembles_rows_split_across_reads() {
    let text = "{\"x\":[1,2,3]}\n{\"x\":[4,5,6]}\n";
    let batches = collect(text, 1).unwrap();
    assert_eq!(batches.len(), 2);
    assert_eq!(batches[1].rows, vec![4.0, 5.0, 6.0]);
}

#[test]
fn flushes_trailing_line_without_newline() {
    let text = "[1,2]\n[3,4]";
    let batches = collect(text, 16 * 1024).unwrap();
    assert_eq!(batches.len(), 2);
    assert_eq!(batches[1].rows, vec![3.0, 4.0]);
}

#[test]
fn skips_blank_lines_and_tolerates_crlf() {
    let text = "[1]\r\n\r\n[2]\r\n";
    let batches = collect(text, 16 * 1024).unwrap();
    assert_eq!(batches.len(), 2);
    assert_eq!(batches[0].rows, vec![1.0]);
    assert_eq!(batches[1].rows, vec![2.0]);
}

#[test]
fn surfaces_malformed_json() {
    assert!(collect("{not json}\n", 16 * 1024).is_err());
}

#[test]
fn row_shapes_and_their_errors() {
    let msg = |line: &str| match parse_row_line(line.as_bytes()) {
        Err(DatasetError::Format(m)) => m,
        other => panic!("unexpected {:?}", other.map(|r| r.is_some())),
    };
    assert_eq!(msg("\"text\""), "NDJSON row must be a JSON array or object");
    assert_eq!(msg("{\"y\":1}"), "NDJSON row object needs an array field (x/features/data/values)");
    assert_eq!(msg("{\"x\":3,\"features\":[1]}"), "NDJSON row object needs an array field (x/features/data/values)");
    assert_eq!(msg("[1,\"a\"]"), "NDJSON feature values must be numbers");
    assert!(msg("[1,").starts_with("invalid NDJSON row: "));
    assert!(parse_row_line(b"  \t ").unwrap().is_none());
    // Key precedence: `x` before `values`, `label` before `y`; a label that
    // is not a string is kept as its JSON text.
    let r = parse_row_line(b"{\"values\":[9],\"x\":[1.5],\"y\":\"no\",\"label\":[1,true]}").unwrap().unwrap();
    assert_eq!(r.values, vec![1.5f64.to_bits()]);
    assert_eq!(r.label.as_deref(), Some("[1,true]"));
    let r = parse_row_line(b"{\"data\":[],\"class\":7}").unwrap().unwrap();
    assert!(r.values.is_empty());
    assert_eq!(r.label.as_deref(), Some("7"));
}

#[test]
fn take_line_pops_one_line_and_drops_cr() {
    let mut d = NdjsonDecoder::new();
    assert!(d.take_line().is_none());
    d.push_bytes(b"ab\r\ncd");
    assert_eq!(d.take_line(), Some(b"ab".to_vec()));
    assert!(d.take_line().is_none());
}

#[test]
fn trailing_blank_rest_ends_the_stream() {
    let mut d = NdjsonDecoder::new();
    d.push_bytes(b"  ");
    assert!(matches!(d.next_frame(), Frame::NeedMore));
    d.mark_eof();
    assert!(matches!(d.next_frame(), Frame::End));
}
