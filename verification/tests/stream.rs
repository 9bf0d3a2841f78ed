use render3d::dataset::stream::StreamStatus;

#[test]
fn status_roundtrips_through_u8() {
    for s in [
        StreamStatus::Idle,
        StreamStatus::Active,
        StreamStatus::Error,
        StreamStatus::Stopped,
    ] {
        assert_eq!(StreamStatus::from_u8(s.to_u8()), s);
    }
}

use render3d::dataset::stream::session::StreamShared;
use render3d::dataset::stream::{is_label_name, RowBatch, StreamBuffer, StreamConfig, StreamEvent, StreamFormat};

fn bits(v: &[f32]) -> Vec<u32> {
    v.iter().map(|x| x.to_bits()).collect()
}

#[test]
fn buffer_enforces_constant_columns() {
    let mut buf = StreamBuffer::new(10);
    buf.push_batch(&RowBatch { n_cols: 2, rows: bits(&[1.0, 2.0]), labels: vec![] }).unwrap();
    let err = buf.push_batch(&RowBatch { n_cols: 3, rows: bits(&[1.0, 2.0, 3.0]), labels: vec![] });
    assert!(err.is_err());
    assert_eq!(err.unwrap_err().message(), "format error: stream column count changed from 2 to 3");
}

#[test]
fn buffer_rolls_oldest_rows_off_the_cap() {
    let mut buf = StreamBuffer::new(2);
    for i in 0..5 {
        buf.push_batch(&RowBatch { n_cols: 1, rows: bits(&[i as f32]), labels: vec![] }).unwrap();
    }
    assert_eq!(buf.n_rows(), 2);
    assert_eq!(buf.data, bits(&[3.0, 4.0]));
    assert_eq!(buf.total_received, 5);
    assert!(buf.version >= 5);
}

#[test]
fn buffer_keeps_labels_aligned() {
    let mut buf = StreamBuffer::new(10);
    for i in 0..3 {
        buf.push_batch(&RowBatch {
            n_cols: 2,
            rows: bits(&[i as f32, i as f32 + 0.5]),
            labels: vec![format!("c{}", i % 2)],
        })
        .unwrap();
    }
    buf.push_batch(&RowBatch { n_cols: 2, rows: bits(&[9.0, 9.5]), labels: vec![] }).unwrap();
    assert_eq!(buf.n_rows(), 4);
    assert_eq!(buf.n_cols, 2);
    assert!(buf.has_labels);
    assert_eq!(buf.labels, vec!["c0", "c1", "c0", ""]);
}

#[test]
fn empty_batches_change_nothing_and_clear_resets() {
    let mut buf = StreamBuffer::new(0);
    assert_eq!(buf.max_rows, 1);
    buf.push_batch(&RowBatch { n_cols: 3, rows: bits(&[1.0]), labels: vec![] }).unwrap();
    assert_eq!(buf.version, 0);
    assert_eq!(buf.n_rows(), 0);
    buf.push_batch(&RowBatch { n_cols: 1, rows: bits(&[1.0]), labels: vec!["a".into()] }).unwrap();
    buf.clear();
    assert_eq!(buf.n_rows(), 0);
    assert_eq!(buf.total_received, 0);
    assert_eq!(buf.version, 2);
    assert!(!buf.has_labels);
}

#[test]
fn row_batches_count_whole_rows() {
    assert_eq!(RowBatch { n_cols: 2, rows: bits(&[1.0, 2.0, 3.0]), labels: vec![] }.n_rows(), 1);
    assert_eq!(RowBatch { n_cols: 0, rows: bits(&[1.0]), labels: vec![] }.n_rows(), 0);
}

#[test]
fn label_names_are_recognised_without_case() {
    for n in ["label", "LABELS", "Target", "class", "y"] {
        assert!(is_label_name(n), "{}", n);
    }
    assert!(!is_label_name("x"));
    assert!(!is_label_name("labelled"));
}

#[test]
fn formats_have_stable_tags_and_config_defaults() {
    assert_eq!(StreamFormat::Ndjson.tag(), "ndjson");
    assert_eq!(StreamFormat::ArrowIpc.tag(), "arrow");
    let c = StreamConfig::default();
    assert_eq!(c.format, StreamFormat::Ndjson);
    assert!(c.max_rows > 0);
}

#[test]
fn unknown_status_codes_read_as_idle() {
    assert_eq!(StreamStatus::from_u8(200), StreamStatus::Idle);
    assert_eq!(StreamStatus::Stopped.to_u8(), 3);
}

#[test]
fn session_fails_on_a_column_change_and_keeps_the_error() {
    let mut s = StreamShared::new(5);
    assert_eq!(s.status, StreamStatus::Active);
    assert!(s.on_batch(&RowBatch { n_cols: 1, rows: bits(&[1.0]), labels: vec![] }).is_none());
    assert_ne!(s.last_rx_ms, 0);
    assert!(s.receiving_at(s.last_rx_ms + 10, 100));
    assert!(!s.receiving_at(s.last_rx_ms + 1000, 100));
    let ev = s.on_batch(&RowBatch { n_cols: 2, rows: bits(&[1.0, 2.0]), labels: vec![] });
    match ev {
        Some(StreamEvent::Error(m)) => assert_eq!(m, "format error: stream column count changed from 1 to 2"),
        other => panic!("unexpected {:?}", other),
    }
    assert_eq!(s.status, StreamStatus::Error);
    s.finish();
    assert_eq!(s.status, StreamStatus::Error);
}

#[test]
fn session_stops_cleanly_and_is_not_receiving_before_data() {
    let mut s = StreamShared::new(5);
    assert!(!s.receiving_at(12345, 1_000_000));
    assert!(!s.is_receiving_at(12345, 1_000_000));
    let ev = s.on_failure("accept failed: boom".to_string());
    assert!(matches!(ev, StreamEvent::Error(ref m) if m == "accept failed: boom"));
    let mut t = StreamShared::new(5);
    t.finish();
    assert_eq!(t.status, StreamStatus::Stopped);
}

#[test]
fn arrival_time_drives_receiving() {
    let mut s = StreamShared::new(5);
    assert!(!s.receiving_within(1_000));
    s.received_at(10_000);
    assert_eq!(s.last_rx_ms, 10_000);
    assert!(s.receiving_at(10_500, 1_000));
    assert!(!s.receiving_at(12_000, 1_000));
    s.mark_received();
    assert!(s.receiving_within(60_000));
}

#[test]
fn buffer_keeps_labels_aligned_and_builds_dataset() {
    let mut buf = StreamBuffer::new(10);
    for i in 0..3 {
        buf.push_batch(&RowBatch {
            n_cols: 2,
            rows: bits(&[i as f32, i as f32 + 0.5]),
            labels: vec![format!("c{}", i % 2)],
        })
        .unwrap();
    }
    let (ids, names) = buf.snapshot_labels().unwrap();
    assert_eq!(buf.n_rows(), 3);
    assert_eq!(buf.n_cols, 2);
    assert_eq!(names, vec!["c0".to_string(), "c1".to_string()]);
    assert_eq!(ids, vec![0, 1, 0]);
}

#[test]
fn empty_buffer_has_no_dataset() {
    assert!(StreamBuffer::new(4).snapshot_labels().is_none());
}

#[test]
fn unlabeled_stream_snapshots_as_one_label() {
    let mut buf = StreamBuffer::new(10);
    buf.push_batch(&RowBatch { n_cols: 1, rows: bits(&[1.0, 2.0]), labels: vec![] }).unwrap();
    let (ids, names) = buf.snapshot_labels().unwrap();
    assert_eq!(ids, vec![0, 0]);
    assert_eq!(names, vec!["unlabeled".to_string()]);
}
