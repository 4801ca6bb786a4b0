use straptrack::columnar::ColumnBatch;
use straptrack::record::Record;
use straptrack::schema::{discover_schema, merge_keys};
use straptrack::stattrack::StatTrack;

fn lines(text: &str) -> Vec<String> {
    text.lines().map(|l| l.to_string()).collect()
}

fn names(v: &[String]) -> Vec<&str> {
    v.iter().map(|s| s.as_str()).collect()
}

fn num(c: &Option<String>) -> Option<f64> {
    c.as_ref().map(|v| v.parse::<f64>().unwrap())
}

/// Row-major cells of all batches.
fn table(batches: &[ColumnBatch], width: usize) -> Vec<Vec<Option<f64>>> {
    let mut rows = Vec::new();
    for b in batches {
        for i in 0..b.num_rows {
            rows.push((0..width).map(|j| num(&b.columns[j][i])).collect());
        }
    }
    rows
}

#[test]
fn test_conversion() {
    let input = vec![
        "@strap ts 1640995200.0 price 150.25 volume 1000.0".to_string(),
        "@strap ts 1640995260.0 price 151.00 volume 500.0".to_string(),
    ];
    let strap_track = StatTrack::from_lines(&input, false);
    let columns = strap_track.get_column_names();
    assert!(!columns.is_empty());
    let result = strap_track.to_batches(1000);
    assert_eq!(result.batches.len(), 1);
    assert_eq!(result.batches[0].num_rows, 2);
}

#[test]
fn three_line_scenario() {
    let t = StatTrack::from_lines(&lines("a 1.0 b 2.0\nc 3.0 d 4.0\na 5.0 e 6.0\n"), true);
    let conv = t.to_batches(1000);
    assert_eq!(names(&conv.schema), vec!["a", "b", "c", "d", "e"]);
    let rows = table(&conv.batches, 5);
    assert_eq!(
        rows,
        vec![
            vec![Some(1.0), Some(2.0), None, None, None],
            vec![None, None, Some(3.0), Some(4.0), None],
            vec![Some(5.0), None, None, None, Some(6.0)],
        ]
    );
}

#[test]
fn chunk_capacity_does_not_change_output() {
    let src = lines("x 1 y 2\n\nz 3\ny 4 x 5\n@strap q 9\nw 1e3\n");
    let t = StatTrack::from_lines(&src, true);
    let one = t.to_batches(1);
    let many = t.to_batches(1000);
    let two = t.to_batches(2);
    assert_eq!(one.schema, many.schema);
    assert_eq!(one.batches.len(), 6);
    assert_eq!(many.batches.len(), 1);
    assert_eq!(two.batches.len(), 3);
    let w = one.schema.len();
    assert_eq!(table(&one.batches, w), table(&many.batches, w));
    assert_eq!(table(&two.batches, w), table(&many.batches, w));
}

#[test]
fn materializing_twice_is_identical() {
    let src = lines("b 1 a 2\nc x a 3\n\nb -1\n");
    let t = StatTrack::from_lines(&src, true);
    let first = t.to_batches(2);
    let second = t.to_batches(2);
    assert_eq!(first.schema, second.schema);
    assert_eq!(first.batches.len(), second.batches.len());
    for (x, y) in first.batches.iter().zip(second.batches.iter()) {
        assert_eq!(x.num_rows, y.num_rows);
        assert_eq!(x.columns, y.columns);
    }
}

#[test]
fn column_sum_round_trip() {
    let n = 25;
    let src: Vec<String> = (0..n).map(|i| format!("k {}.25 other {}", i, i * 2)).collect();
    let t = StatTrack::from_lines(&src, true);
    let streamed = t.aggregate(0.0f64, |acc, r: &Record| {
        acc + r.get("k").map(|v| v.parse::<f64>().unwrap()).unwrap_or(0.0)
    });
    let conv = t.to_batches(4);
    let j = conv.schema.iter().position(|s| s == "k").unwrap();
    let mut read_back = 0.0f64;
    for b in &conv.batches {
        for c in &b.columns[j] {
            read_back += num(c).unwrap_or(0.0);
        }
    }
    assert_eq!(streamed, read_back);
    let expected: f64 = (0..n).map(|i| i as f64 + 0.25).sum();
    assert_eq!(read_back, expected);
}

#[test]
fn rows_without_fields_keep_their_place() {
    let t = StatTrack::from_lines(&lines("noise line\n@strap a 1\nmore noise\n"), false);
    let conv = t.to_batches(10);
    assert_eq!(names(&conv.schema), vec!["a"]);
    assert_eq!(table(&conv.batches, 1), vec![vec![None], vec![Some(1.0)], vec![None]]);
}

#[test]
fn empty_source() {
    let t = StatTrack::from_lines(&[], true);
    let conv = t.to_batches(3);
    assert!(conv.schema.is_empty());
    assert!(conv.batches.is_empty());
}

#[test]
fn only_noise_gives_batches_without_columns() {
    let t = StatTrack::from_lines(&lines("x\ny\nz\n"), false);
    let conv = t.to_batches(2);
    assert!(conv.schema.is_empty());
    assert_eq!(conv.batches.len(), 2);
    assert_eq!(conv.batches[0].num_rows, 2);
    assert_eq!(conv.batches[1].num_rows, 1);
    assert!(conv.batches[0].columns.is_empty());
}

#[test]
fn schema_sorted_by_code_point_and_deduplicated() {
    let t = StatTrack::from_lines(&lines("b 1 a 1 B 1\nab 2 a 3\né 1 z 0\n"), true);
    assert_eq!(names(&t.get_column_names()), vec!["B", "a", "ab", "b", "z", "é"]);
    assert_eq!(names(&discover_schema(t.rows())), vec!["B", "a", "ab", "b", "z", "é"]);
}

#[test]
fn merge_keys_adds_new_names_in_order() {
    let t = StatTrack::from_lines(&lines("m 1 c 2\nc 3 x 4 a 5\n"), true);
    let mut schema = Vec::new();
    merge_keys(&mut schema, t.get_row(0).unwrap());
    assert_eq!(names(&schema), vec!["c", "m"]);
    merge_keys(&mut schema, t.get_row(1).unwrap());
    assert_eq!(names(&schema), vec!["a", "c", "m", "x"]);
}

#[test]
fn chunk_buffer_streams_the_same_batches() {
    let src = lines("a 1\nb 2\n\na 3 b 4\nc 5\n");
    let t = StatTrack::from_lines(&src, true);
    let schema = t.get_column_names();
    let whole = t.to_batches(2);
    let mut buffer = straptrack::columnar::ChunkBuffer::new(2);
    let mut streamed: Vec<ColumnBatch> = Vec::new();
    for line in &src {
        if let Some(b) = buffer.push(straptrack::record::extract(line, true), &schema) {
            streamed.push(b);
        }
    }
    assert_eq!(streamed.len(), 2);
    if let Some(b) = buffer.finish(&schema) {
        streamed.push(b);
    }
    assert_eq!(streamed.len(), whole.batches.len());
    for (x, y) in streamed.iter().zip(whole.batches.iter()) {
        assert_eq!(x.num_rows, y.num_rows);
        assert_eq!(x.columns, y.columns);
    }
}

#[test]
fn chunk_buffer_finish_when_empty() {
    let mut buffer = straptrack::columnar::ChunkBuffer::new(1);
    let schema = vec!["a".to_string()];
    let b = buffer.push(straptrack::record::extract("a 7", true), &schema).unwrap();
    assert_eq!(b.num_rows, 1);
    assert_eq!(b.columns[0], vec![Some("7".to_string())]);
    assert!(buffer.finish(&schema).is_none());
}
